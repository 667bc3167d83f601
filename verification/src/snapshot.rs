//! The journal snapshot codec: a canonical JSON document that round-trips
//! exactly. The document is one object:
//!
//! `{"count":"<n>","entries":[{"path":"<p>","size":"<s>","mtime":"<m>","dest":"<d>"}, ...]}`
//!
//! Numbers are fixed-width, zero-padded 20-digit decimals inside strings;
//! `path` and `dest` are stored with every character hex-encoded as six
//! digits of its Unicode scalar value, so the string grammar needs no escape
//! rules and any path round-trips. The parser accepts exactly what the
//! encoder writes; a corrupt snapshot is rejected, never guessed at.
use vstd::prelude::*;
use vstd::arithmetic::power::pow;
use vstd::arithmetic::div_mod::lemma_fundamental_div_mod;
use crate::journal::EntryModel;
use crate::types::Signature;

verus! {

/// The character for one digit value, `0`–`9` then `a`–`f`.
pub open spec fn hexd(d: int) -> char {
    if d == 0 { '0' }
    else if d == 1 { '1' }
    else if d == 2 { '2' }
    else if d == 3 { '3' }
    else if d == 4 { '4' }
    else if d == 5 { '5' }
    else if d == 6 { '6' }
    else if d == 7 { '7' }
    else if d == 8 { '8' }
    else if d == 9 { '9' }
    else if d == 10 { 'a' }
    else if d == 11 { 'b' }
    else if d == 12 { 'c' }
    else if d == 13 { 'd' }
    else if d == 14 { 'e' }
    else { 'f' }
}

/// The digit value of a character, or 16 when it is no digit.
pub open spec fn hex_val(c: char) -> int {
    if c == '0' { 0 }
    else if c == '1' { 1 }
    else if c == '2' { 2 }
    else if c == '3' { 3 }
    else if c == '4' { 4 }
    else if c == '5' { 5 }
    else if c == '6' { 6 }
    else if c == '7' { 7 }
    else if c == '8' { 8 }
    else if c == '9' { 9 }
    else if c == 'a' { 10 }
    else if c == 'b' { 11 }
    else if c == 'c' { 12 }
    else if c == 'd' { 13 }
    else if c == 'e' { 14 }
    else if c == 'f' { 15 }
    else { 16 }
}

/// `n` written as exactly `k` digits in base `b`, most significant first,
/// truncating high digits that do not fit.
pub open spec fn char_digits(n: int, k: nat, b: int) -> Seq<char>
    decreases k,
{
    if k == 0 {
        Seq::<char>::empty()
    } else {
        char_digits(n / b, (k - 1) as nat, b) + seq![hexd(n % b)]
    }
}

/// The value of a digit string in base `b`.
pub open spec fn base_value(t: Seq<char>, b: int) -> int
    decreases t.len(),
{
    if t.len() == 0 {
        0
    } else {
        base_value(t.drop_last(), b) * b + hex_val(t.last())
    }
}

/// Digits encode and evaluate back to the same value: writing `n < b^k` as
/// `k` digits and reading them back yields `n`, and every written digit is a
/// valid base-`b` digit.
pub proof fn lemma_digits_roundtrip(n: int, k: nat, b: int)
    requires
        2 <= b <= 16,
        0 <= n < pow(b, k),
    ensures
        char_digits(n, k, b).len() == k,
        forall|t: int| 0 <= t < k ==> hex_val(#[trigger] char_digits(n, k, b)[t]) < b,
        base_value(char_digits(n, k, b), b) == n,
    decreases k,
{
    reveal(pow);
    if k == 0 {
        assert(pow(b, 0) == 1);
    } else {
        lemma_fundamental_div_mod(n, b);
        vstd::arithmetic::power::lemma_pow_positive(b, (k - 1) as nat);
        assert(pow(b, k) == b * pow(b, (k - 1) as nat));
        assert(0 <= n % b < b && n / b >= 0);
        assert(n / b < pow(b, (k - 1) as nat)) by (nonlinear_arith)
            requires
                b >= 2,
                n >= 0,
                n < b * pow(b, (k - 1) as nat),
                pow(b, (k - 1) as nat) >= 1,
        ;
        lemma_digits_roundtrip(n / b, (k - 1) as nat, b);
        let d = n % b;
        assert(hex_val(hexd(d)) == d);
        let w = char_digits(n, k, b);
        assert(w.drop_last() =~= char_digits(n / b, (k - 1) as nat, b));
        assert(w.last() == hexd(d));
        assert(base_value(w, b) == (n / b) * b + d);
        assert((n / b) * b + d == n) by {
            lemma_fundamental_div_mod(n, b);
        }
        assert forall|t: int| 0 <= t < k implies hex_val(#[trigger] w[t]) < b by {
            if t < k - 1 {
                assert(w[t] == char_digits(n / b, (k - 1) as nat, b)[t]);
            } else {
                assert(w[t] == hexd(d));
            }
        }
    }
}

/// A string of valid base-`b` digits evaluates below `b^len`, and never
/// negative.
pub proof fn lemma_base_value_bound(t: Seq<char>, b: int)
    requires
        2 <= b <= 16,
        forall|i: int| 0 <= i < t.len() ==> hex_val(#[trigger] t[i]) < b,
    ensures
        0 <= base_value(t, b) < pow(b, t.len()),
    decreases t.len(),
{
    reveal(pow);
    if t.len() == 0 {
        assert(pow(b, 0) == 1);
    } else {
        assert(forall|i: int| 0 <= i < t.drop_last().len() ==> hex_val(#[trigger] t.drop_last()[i]) < b);
        lemma_base_value_bound(t.drop_last(), b);
        assert(hex_val(t.last()) >= 0);
        assert(pow(b, t.len()) == b * pow(b, (t.len() - 1) as nat));
        assert(base_value(t.drop_last(), b) * b + hex_val(t.last()) < b * pow(b, (t.len() - 1) as nat))
            by (nonlinear_arith)
            requires
                b >= 2,
                0 <= base_value(t.drop_last(), b) < pow(b, (t.len() - 1) as nat),
                0 <= hex_val(t.last()) < b,
        ;
    }
}

/// A path or destination string, hex-encoded: each character as the six
/// base-16 digits of its Unicode scalar value.
pub open spec fn hex6(c: char) -> Seq<char> {
    char_digits(c as u32 as int, 6, 16)
}

/// The hex encoding of a whole string.
pub open spec fn text_enc(t: Seq<char>) -> Seq<char>
    decreases t.len(),
{
    if t.len() == 0 {
        Seq::<char>::empty()
    } else {
        text_enc(t.drop_last()) + hex6(t.last())
    }
}

/// Every character of a hex-encoded string is a base-16 digit (so in
/// particular never the closing `"`), and each character's six digits read
/// back as its scalar value.
pub proof fn lemma_hex6_digits(c: char)
    ensures
        hex6(c).len() == 6,
        forall|t: int| 0 <= t < 6 ==> hex_val(#[trigger] hex6(c)[t]) < 16,
        base_value(hex6(c), 16) == c as u32 as int,
{
    vstd::utf8::char_is_scalar(c);
    assert(c as u32 <= 0x10FFFF);
    assert(pow(16, 6) == 0x1000000) by {
        reveal_with_fuel(pow, 7);
    }
    lemma_digits_roundtrip(c as u32 as int, 6, 16);
}

/// The hex encoding of a string, decomposed at its first character.
pub proof fn lemma_text_enc_head(t: Seq<char>)
    requires
        t.len() > 0,
    ensures
        text_enc(t) == hex6(t[0]) + text_enc(t.skip(1)),
        text_enc(t).len() == 6 * t.len(),
    decreases t.len(),
{
    if t.len() == 1 {
        lemma_hex6_digits(t[0]);
        assert(t.drop_last().len() == 0);
        assert(text_enc(t.drop_last()) == Seq::<char>::empty());
        assert(t.skip(1).len() == 0);
        assert(text_enc(t.skip(1)) == Seq::<char>::empty());
        assert(text_enc(t) =~= hex6(t[0]) + text_enc(t.skip(1)));
    } else {
        lemma_text_enc_head(t.drop_last());
        lemma_hex6_digits(t.last());
        assert(t.drop_last()[0] == t[0]);
        assert(t.drop_last().skip(1) =~= t.skip(1).drop_last());
        assert(t.skip(1).last() == t.last());
        assert(text_enc(t.skip(1)) == text_enc(t.skip(1).drop_last()) + hex6(t.skip(1).last()));
        assert(text_enc(t) =~= hex6(t[0]) + text_enc(t.skip(1)));
    }
}

/// The length of a hex-encoded string: six digits per character.
pub proof fn lemma_text_enc_len(t: Seq<char>)
    ensures
        text_enc(t).len() == 6 * t.len(),
    decreases t.len(),
{
    if t.len() > 0 {
        lemma_text_enc_len(t.drop_last());
        lemma_hex6_digits(t.last());
    }
}

/// `{"count":"` — the document opener.
pub open spec fn lit_head() -> Seq<char> {
    seq!['{', '"', 'c', 'o', 'u', 'n', 't', '"', ':', '"']
}

/// `","entries":[` — between the count and the entry array.
pub open spec fn lit_mid() -> Seq<char> {
    seq!['"', ',', '"', 'e', 'n', 't', 'r', 'i', 'e', 's', '"', ':', '[']
}

/// `{"path":"` — an entry opener.
pub open spec fn lit_path() -> Seq<char> {
    seq!['{', '"', 'p', 'a', 't', 'h', '"', ':', '"']
}

/// `","size":"` — between an entry's path and size.
pub open spec fn lit_size() -> Seq<char> {
    seq!['"', ',', '"', 's', 'i', 'z', 'e', '"', ':', '"']
}

/// `","mtime":"` — between an entry's size and mtime.
pub open spec fn lit_mtime() -> Seq<char> {
    seq!['"', ',', '"', 'm', 't', 'i', 'm', 'e', '"', ':', '"']
}

/// `","dest":"` — between an entry's mtime and destination.
pub open spec fn lit_dest() -> Seq<char> {
    seq!['"', ',', '"', 'd', 'e', 's', 't', '"', ':', '"']
}

/// `"}` — an entry closer.
pub open spec fn lit_entry_end() -> Seq<char> {
    seq!['"', '}']
}

/// `]}` — the document closer.
pub open spec fn lit_end() -> Seq<char> {
    seq![']', '}']
}

/// The canonical encoding of one journal record.
pub open spec fn entry_enc(e: EntryModel) -> Seq<char> {
    lit_path() + text_enc(e.path) + lit_size() + char_digits(e.sig.size as int, 20, 10)
        + lit_mtime() + char_digits(e.sig.mtime as int, 20, 10) + lit_dest() + text_enc(e.dest)
        + lit_entry_end()
}

/// The canonical encoding of the records, comma-separated.
pub open spec fn entries_enc(rs: Seq<EntryModel>) -> Seq<char>
    decreases rs.len(),
{
    if rs.len() == 0 {
        Seq::<char>::empty()
    } else if rs.len() == 1 {
        entry_enc(rs[0])
    } else {
        entries_enc(rs.drop_last()) + seq![','] + entry_enc(rs.last())
    }
}

/// The canonical encoding of a whole snapshot.
pub open spec fn snapshot_enc(rs: Seq<EntryModel>) -> Seq<char> {
    lit_head() + char_digits(rs.len() as int, 20, 10) + lit_mid() + entries_enc(rs) + lit_end()
}

/// Whether `lit` sits in `s` at position `i`.
pub open spec fn sp_match(s: Seq<char>, i: int, lit: Seq<char>) -> bool {
    0 <= i && i + lit.len() <= s.len() && s.subrange(i, i + lit.len() as int) == lit
}

/// The value of the `k` base-`b` digits at position `i`, or `None` when any
/// character there is no such digit or the input is too short.
pub open spec fn sp_digits(s: Seq<char>, i: int, k: nat, b: int) -> Option<int> {
    if 0 <= i && i + k <= s.len() && (forall|t: int| 0 <= t < k ==> hex_val(#[trigger] s[i + t]) < b) {
        Option::Some(base_value(s.subrange(i, i + k as int), b))
    } else {
        Option::None
    }
}

/// The hex-encoded string starting at position `i` and running to the next
/// `"` (not consumed), decoded; `None` when a non-digit appears before the
/// closing quote, the input ends first, or a group decodes to no Unicode
/// scalar value.
pub open spec fn sp_text(s: Seq<char>, i: int) -> Option<(Seq<char>, int)>
    decreases s.len() - i,
{
    if i < 0 || i >= s.len() {
        Option::None
    } else if s[i] == '"' {
        Option::Some((Seq::<char>::empty(), i))
    } else if i + 6 <= s.len() && (forall|t: int| 0 <= t < 6 ==> hex_val(#[trigger] s[i + t]) < 16) {
        let v = base_value(s.subrange(i, i + 6), 16);
        if 0 <= v < 0x1000000 && vstd::utf8::is_scalar(v as u32) {
            match sp_text(s, i + 6) {
                Option::Some((t, j)) => Option::Some((seq![(v as u32) as char] + t, j)),
                Option::None => Option::None,
            }
        } else {
            Option::None
        }
    } else {
        Option::None
    }
}

/// One encoded record at position `i`, or `None` when the input disagrees
/// with the canonical grammar there.
pub open spec fn sp_entry(s: Seq<char>, i: int) -> Option<(EntryModel, int)> {
    if !sp_match(s, i, lit_path()) {
        Option::None
    } else {
        match sp_text(s, i + 9) {
            Option::None => Option::None,
            Option::Some((p, j1)) => if !sp_match(s, j1, lit_size()) {
                Option::None
            } else {
                match sp_digits(s, j1 + 10, 20, 10) {
                    Option::None => Option::None,
                    Option::Some(sz) => if !(sz <= u64::MAX) {
                        Option::None
                    } else if !sp_match(s, j1 + 30, lit_mtime()) {
                        Option::None
                    } else {
                        match sp_digits(s, j1 + 41, 20, 10) {
                            Option::None => Option::None,
                            Option::Some(mt) => if !(mt <= u64::MAX) {
                                Option::None
                            } else if !sp_match(s, j1 + 61, lit_dest()) {
                                Option::None
                            } else {
                                match sp_text(s, j1 + 71) {
                                    Option::None => Option::None,
                                    Option::Some((d, j2)) => if sp_match(s, j2, lit_entry_end()) {
                                        Option::Some(
                                            (
                                                EntryModel {
                                                    path: p,
                                                    sig: Signature { size: sz as u64, mtime: mt as u64 },
                                                    dest: d,
                                                },
                                                j2 + 2,
                                            ),
                                        )
                                    } else {
                                        Option::None
                                    },
                                }
                            },
                        }
                    },
                }
            },
        }
    }
}

/// Exactly `n` encoded records from position `i`, comma-separated.
pub open spec fn sp_entries(s: Seq<char>, i: int, n: nat) -> Option<(Seq<EntryModel>, int)>
    decreases n,
{
    if n == 0 {
        Option::Some((Seq::<EntryModel>::empty(), i))
    } else {
        match sp_entry(s, i) {
            Option::None => Option::None,
            Option::Some((e, j)) => if n == 1 {
                Option::Some((seq![e], j))
            } else if 0 <= j < s.len() && s[j] == ',' {
                match sp_entries(s, j + 1, (n - 1) as nat) {
                    Option::Some((t, k)) => Option::Some((seq![e] + t, k)),
                    Option::None => Option::None,
                }
            } else {
                Option::None
            },
        }
    }
}

/// The records of a whole snapshot document, or `None` when the text is not
/// a canonical snapshot: the parser accepts exactly what the encoder writes.
pub open spec fn sp_snapshot(s: Seq<char>) -> Option<Seq<EntryModel>> {
    if !sp_match(s, 0, lit_head()) {
        Option::None
    } else {
        match sp_digits(s, 10, 20, 10) {
            Option::None => Option::None,
            Option::Some(n) => if !(n <= u64::MAX) {
                Option::None
            } else if !sp_match(s, 30, lit_mid()) {
                Option::None
            } else {
                match sp_entries(s, 43, n as nat) {
                    Option::None => Option::None,
                    Option::Some((rs, j)) => if sp_match(s, j, lit_end()) && j + 2 == s.len() {
                        Option::Some(rs)
                    } else {
                        Option::None
                    },
                }
            },
        }
    }
}

/// Twenty decimal digits hold any `u64`.
pub proof fn lemma_u64_fits(n: int)
    requires
        0 <= n <= u64::MAX,
    ensures
        n < pow(10, 20),
{
    assert(pow(10, 20) == 0x56BC75E2D63100000) by {
        reveal_with_fuel(pow, 21);
    }
}

/// Encoded digits sitting inside a larger text parse back to their value.
pub proof fn lemma_digits_at(s: Seq<char>, pos: int, n: int, k: nat, b: int)
    requires
        2 <= b <= 16,
        0 <= n < pow(b, k),
        0 <= pos,
        pos + k <= s.len(),
        s.subrange(pos, pos + k as int) == char_digits(n, k, b),
    ensures
        sp_digits(s, pos, k, b) == Option::Some(n),
{
    lemma_digits_roundtrip(n, k, b);
    assert forall|t: int| 0 <= t < k implies hex_val(#[trigger] s[pos + t]) < b by {
        assert(s[pos + t] == s.subrange(pos, pos + k as int)[t]);
    }
}

/// An encoded string sitting inside a larger text, followed by its closing
/// quote, parses back to itself.
pub proof fn lemma_text_at(s: Seq<char>, pos: int, t: Seq<char>)
    requires
        0 <= pos,
        pos + 6 * t.len() < s.len(),
        s.subrange(pos, pos + 6 * t.len()) == text_enc(t),
        s[pos + 6 * t.len()] == '"',
    ensures
        sp_text(s, pos) == Option::Some((t, pos + 6 * t.len())),
    decreases t.len(),
{
    if t.len() == 0 {
        assert(s[pos] == '"');
    } else {
        lemma_text_enc_head(t);
        lemma_hex6_digits(t[0]);
        let c = t[0];
        let v = c as u32 as int;
        assert(s.subrange(pos, pos + 6) =~= hex6(c)) by {
            assert forall|q: int| 0 <= q < 6 implies s.subrange(pos, pos + 6)[q] == hex6(c)[q] by {
                assert(s.subrange(pos, pos + 6)[q] == s[pos + q]);
                assert(s[pos + q] == s.subrange(pos, pos + 6 * t.len())[q]);
                assert(text_enc(t)[q] == (hex6(t[0]) + text_enc(t.skip(1)))[q]);
            }
        }
        assert forall|q: int| 0 <= q < 6 implies hex_val(#[trigger] s[pos + q]) < 16 by {
            assert(s[pos + q] == s.subrange(pos, pos + 6)[q]);
        }
        assert(hex_val(s[pos]) < 16) by {
            assert(hex_val(s[pos + 0]) < 16);
        }
        assert(hex_val('"') == 16);
        assert(s[pos] != '"');
        assert(base_value(s.subrange(pos, pos + 6), 16) == v);
        vstd::utf8::char_is_scalar(c);
        assert(0 <= v < 0x1000000);
        assert(v as u32 == c as u32);
        assert(vstd::utf8::is_scalar(v as u32));
        vstd::utf8::char_u32_cast(c, v as u32);
        assert((v as u32) as char == c);
        let rest = t.skip(1);
        assert(s.subrange(pos + 6, pos + 6 + 6 * rest.len()) =~= text_enc(rest)) by {
            lemma_text_enc_len(rest);
            assert forall|q: int| 0 <= q < 6 * rest.len() implies s.subrange(
                pos + 6,
                pos + 6 + 6 * rest.len(),
            )[q] == text_enc(rest)[q] by {
                assert(s.subrange(pos + 6, pos + 6 + 6 * rest.len())[q] == s[pos + 6 + q]);
                assert(s[pos + 6 + q] == s.subrange(pos, pos + 6 * t.len())[6 + q]);
                assert(text_enc(t)[6 + q] == (hex6(t[0]) + text_enc(rest))[6 + q]);
            }
        }
        lemma_text_at(s, pos + 6, rest);
        assert(sp_text(s, pos + 6) == Option::Some((rest, pos + 6 * t.len())));
        assert(seq![(v as u32) as char] + rest =~= t);
    }
}

/// The encoding of a record sequence, decomposed at its first record.
pub proof fn lemma_entries_enc_head(rs: Seq<EntryModel>)
    requires
        rs.len() > 0,
    ensures
        entries_enc(rs) == entry_enc(rs[0]) + if rs.len() > 1 {
            seq![','] + entries_enc(rs.skip(1))
        } else {
            Seq::<char>::empty()
        },
    decreases rs.len(),
{
    if rs.len() == 1 {
        assert(entries_enc(rs) =~= entry_enc(rs[0]) + Seq::<char>::empty());
    } else if rs.len() == 2 {
        assert(rs.drop_last().len() == 1);
        assert(rs.drop_last()[0] == rs[0]);
        assert(entries_enc(rs.drop_last()) == entry_enc(rs[0]));
        assert(rs.skip(1).len() == 1);
        assert(rs.skip(1)[0] == rs[1]);
        assert(entries_enc(rs.skip(1)) == entry_enc(rs[1]));
        assert(rs.last() == rs[1]);
        assert(entries_enc(rs) =~= entry_enc(rs[0]) + (seq![','] + entries_enc(rs.skip(1))));
    } else {
        lemma_entries_enc_head(rs.drop_last());
        assert(rs.drop_last()[0] == rs[0]);
        assert(rs.drop_last().skip(1) =~= rs.skip(1).drop_last());
        assert(rs.skip(1).last() == rs.last());
        assert(rs.skip(1).len() > 1);
        assert(entries_enc(rs.skip(1)) == entries_enc(rs.skip(1).drop_last()) + seq![','] + entry_enc(
            rs.skip(1).last(),
        ));
        assert(entries_enc(rs) =~= entry_enc(rs[0]) + (seq![','] + entries_enc(rs.skip(1))));
    }
}

/// `char_digits` writes exactly `k` characters.
pub proof fn lemma_char_digits_len(n: int, k: nat, b: int)
    ensures
        char_digits(n, k, b).len() == k,
    decreases k,
{
    if k > 0 {
        lemma_char_digits_len(n / b, (k - 1) as nat, b);
    }
}

/// A piece of an encoding sitting inside a larger text sits at its offset.
proof fn lemma_subrange_of_eq(s: Seq<char>, pos: int, whole: Seq<char>, off: int, piece: Seq<char>)
    requires
        0 <= pos,
        pos + whole.len() <= s.len(),
        s.subrange(pos, pos + whole.len() as int) == whole,
        0 <= off,
        off + piece.len() <= whole.len(),
        whole.subrange(off, off + piece.len() as int) == piece,
    ensures
        s.subrange(pos + off, pos + off + piece.len() as int) == piece,
{
    assert forall|q: int| 0 <= q < piece.len() implies s.subrange(
        pos + off,
        pos + off + piece.len() as int,
    )[q] == piece[q] by {
        assert(s.subrange(pos + off, pos + off + piece.len() as int)[q] == s[pos + off + q]);
        assert(s[pos + off + q] == s.subrange(pos, pos + whole.len() as int)[off + q]);
        assert(whole.subrange(off, off + piece.len() as int)[q] == whole[off + q]);
    }
    assert(s.subrange(pos + off, pos + off + piece.len() as int) =~= piece);
}

/// An encoded record sitting inside a larger text parses back to itself.
#[verifier::rlimit(60)]
pub proof fn lemma_entry_at(s: Seq<char>, pos: int, e: EntryModel)
    requires
        0 <= pos,
        pos + entry_enc(e).len() <= s.len(),
        s.subrange(pos, pos + entry_enc(e).len() as int) == entry_enc(e),
    ensures
        sp_entry(s, pos) == Option::Some((e, pos + entry_enc(e).len() as int)),
{
    let w = entry_enc(e);
    lemma_text_enc_len(e.path);
    lemma_text_enc_len(e.dest);
    lemma_char_digits_len(e.sig.size as int, 20, 10);
    lemma_char_digits_len(e.sig.mtime as int, 20, 10);
    let pl = 6 * e.path.len() as int;
    let dl = 6 * e.dest.len() as int;
    assert(w.len() == 82 + pl + dl);
    let o1 = pos + 9;
    let o2 = o1 + pl;
    let o3 = o2 + 10;
    let o4 = o3 + 20;
    let o5 = o4 + 11;
    let o6 = o5 + 20;
    let o7 = o6 + 10;
    let o8 = o7 + dl;

    assert(w.subrange(0, 9) =~= lit_path());
    assert(w.subrange(9, 9 + pl) =~= text_enc(e.path));
    assert(w.subrange(9 + pl, 19 + pl) =~= lit_size());
    assert(w.subrange(19 + pl, 39 + pl) =~= char_digits(e.sig.size as int, 20, 10));
    assert(w.subrange(39 + pl, 50 + pl) =~= lit_mtime());
    assert(w.subrange(50 + pl, 70 + pl) =~= char_digits(e.sig.mtime as int, 20, 10));
    assert(w.subrange(70 + pl, 80 + pl) =~= lit_dest());
    assert(w.subrange(80 + pl, 80 + pl + dl) =~= text_enc(e.dest));
    assert(w.subrange(80 + pl + dl, 82 + pl + dl) =~= lit_entry_end());

    lemma_subrange_of_eq(s, pos, w, 0, lit_path());
    lemma_subrange_of_eq(s, pos, w, 9, text_enc(e.path));
    lemma_subrange_of_eq(s, pos, w, 9 + pl, lit_size());
    lemma_subrange_of_eq(s, pos, w, 19 + pl, char_digits(e.sig.size as int, 20, 10));
    lemma_subrange_of_eq(s, pos, w, 39 + pl, lit_mtime());
    lemma_subrange_of_eq(s, pos, w, 50 + pl, char_digits(e.sig.mtime as int, 20, 10));
    lemma_subrange_of_eq(s, pos, w, 70 + pl, lit_dest());
    lemma_subrange_of_eq(s, pos, w, 80 + pl, text_enc(e.dest));
    lemma_subrange_of_eq(s, pos, w, 80 + pl + dl, lit_entry_end());

    assert(sp_match(s, pos, lit_path()));

    assert(s[o2] == '"') by {
        assert(s.subrange(o2, o2 + 10)[0] == lit_size()[0]);
    }
    lemma_text_at(s, o1, e.path);
    assert(sp_text(s, o1) == Option::Some((e.path, o2)));
    assert(sp_match(s, o2, lit_size()));

    lemma_u64_fits(e.sig.size as int);
    lemma_digits_at(s, o3, e.sig.size as int, 20, 10);
    assert(sp_digits(s, o2 + 10, 20, 10) == Option::Some(e.sig.size as int));

    assert(sp_match(s, o4, lit_mtime()));
    lemma_u64_fits(e.sig.mtime as int);
    lemma_digits_at(s, o5, e.sig.mtime as int, 20, 10);
    assert(sp_digits(s, o2 + 41, 20, 10) == Option::Some(e.sig.mtime as int));

    assert(sp_match(s, o6, lit_dest()));
    assert(s[o8] == '"') by {
        assert(s.subrange(o8, o8 + 2)[0] == lit_entry_end()[0]);
    }
    lemma_text_at(s, o7, e.dest);
    assert(sp_text(s, o2 + 71) == Option::Some((e.dest, o8)));
    assert(sp_match(s, o8, lit_entry_end()));

    assert((e.sig.size as int) as u64 == e.sig.size);
    assert((e.sig.mtime as int) as u64 == e.sig.mtime);
    assert(sp_entry(s, pos) == Option::Some((e, o8 + 2)));
}

/// An encoded record sequence sitting inside a larger text parses back to
/// itself, record count and all.
pub proof fn lemma_entries_at(s: Seq<char>, pos: int, rs: Seq<EntryModel>)
    requires
        0 <= pos,
        pos + entries_enc(rs).len() <= s.len(),
        s.subrange(pos, pos + entries_enc(rs).len() as int) == entries_enc(rs),
    ensures
        sp_entries(s, pos, rs.len()) == Option::Some((rs, pos + entries_enc(rs).len() as int)),
    decreases rs.len(),
{
    if rs.len() == 0 {
        assert(rs =~= Seq::<EntryModel>::empty());
    } else if rs.len() == 1 {
        assert(entries_enc(rs) == entry_enc(rs[0]));
        lemma_entry_at(s, pos, rs[0]);
        assert(seq![rs[0]] =~= rs);
    } else {
        lemma_entries_enc_head(rs);
        let w = entries_enc(rs);
        let e0 = entry_enc(rs[0]);
        let rest = entries_enc(rs.skip(1));
        assert(w == e0 + (seq![','] + rest));
        assert(w.subrange(0, e0.len() as int) =~= e0);
        lemma_subrange_of_eq(s, pos, w, 0, e0);
        lemma_entry_at(s, pos, rs[0]);
        let j = pos + e0.len() as int;
        assert(s[j] == ',') by {
            assert(s.subrange(pos, pos + w.len() as int)[e0.len() as int] == w[e0.len() as int]);
            assert(w[e0.len() as int] == (seq![','] + rest)[0]);
        }
        assert(w.subrange(e0.len() as int + 1, w.len() as int) =~= rest);
        lemma_subrange_of_eq(s, pos, w, e0.len() as int + 1, rest);
        lemma_entries_at(s, j + 1, rs.skip(1));
        assert(sp_entries(s, j + 1, (rs.len() - 1) as nat) == Option::Some(
            (rs.skip(1), j + 1 + rest.len()),
        ));
        assert(seq![rs[0]] + rs.skip(1) =~= rs);
        assert(j + 1 + rest.len() == pos + w.len());
    }
}

/// Law (round-trip): a snapshot encodes and parses back to exactly the same
/// records — flushing a journal and constructing a fresh journal from that
/// snapshot reproduces the mapping, record for record, in order.
pub proof fn lemma_snapshot_roundtrip(rs: Seq<EntryModel>)
    requires
        rs.len() <= u64::MAX,
    ensures
        sp_snapshot(snapshot_enc(rs)) == Option::Some(rs),
{
    let s = snapshot_enc(rs);
    lemma_char_digits_len(rs.len() as int, 20, 10);
    let el = entries_enc(rs).len() as int;
    assert(s.len() == 45 + el);
    assert(s.subrange(0, s.len() as int) =~= s);

    assert(s.subrange(0, 10) =~= lit_head());
    lemma_subrange_of_eq(s, 0, s, 0, lit_head());
    assert(sp_match(s, 0, lit_head()));

    assert(s.subrange(10, 30) =~= char_digits(rs.len() as int, 20, 10));
    lemma_u64_fits(rs.len() as int);
    lemma_digits_at(s, 10, rs.len() as int, 20, 10);
    assert(sp_digits(s, 10, 20, 10) == Option::Some(rs.len() as int));

    assert(s.subrange(30, 43) =~= lit_mid());
    assert(sp_match(s, 30, lit_mid()));

    assert(s.subrange(43, 43 + el) =~= entries_enc(rs));
    lemma_entries_at(s, 43, rs);
    assert((rs.len() as int) as nat == rs.len());
    assert(sp_entries(s, 43, rs.len()) == Option::Some((rs, 43 + el)));

    assert(s.subrange(43 + el, 45 + el) =~= lit_end());
    assert(sp_match(s, 43 + el, lit_end()));
    assert(43 + el + 2 == s.len());
}

/// The digit character for a value below 16.
fn hexd_exec(d: u64) -> (c: char)
    requires
        d < 16,
    ensures
        c == hexd(d as int),
{
    if d == 0 { '0' }
    else if d == 1 { '1' }
    else if d == 2 { '2' }
    else if d == 3 { '3' }
    else if d == 4 { '4' }
    else if d == 5 { '5' }
    else if d == 6 { '6' }
    else if d == 7 { '7' }
    else if d == 8 { '8' }
    else if d == 9 { '9' }
    else if d == 10 { 'a' }
    else if d == 11 { 'b' }
    else if d == 12 { 'c' }
    else if d == 13 { 'd' }
    else if d == 14 { 'e' }
    else { 'f' }
}

/// The digit value of a character, 16 for a non-digit.
fn hex_val_exec(c: char) -> (d: u64)
    ensures
        d as int == hex_val(c),
{
    if c == '0' { 0 }
    else if c == '1' { 1 }
    else if c == '2' { 2 }
    else if c == '3' { 3 }
    else if c == '4' { 4 }
    else if c == '5' { 5 }
    else if c == '6' { 6 }
    else if c == '7' { 7 }
    else if c == '8' { 8 }
    else if c == '9' { 9 }
    else if c == 'a' { 10 }
    else if c == 'b' { 11 }
    else if c == 'c' { 12 }
    else if c == 'd' { 13 }
    else if c == 'e' { 14 }
    else if c == 'f' { 15 }
    else { 16 }
}

/// Appends `n` as exactly `k` base-`b` digits, most significant first.
fn push_digits(out: &mut Vec<char>, n: u64, k: usize, b: u64)
    requires
        2 <= b <= 16,
    ensures
        final(out)@ == old(out)@ + char_digits(n as int, k as nat, b as int),
{
    let mut rev: Vec<char> = Vec::new();
    let mut m: u64 = n;
    let mut j: usize = 0;
    proof {
        assert(rev@.reverse() =~= Seq::<char>::empty());
        assert(char_digits(n as int, k as nat, b as int) =~= char_digits(
            m as int,
            (k - j) as nat,
            b as int,
        ) + rev@.reverse());
    }
    while j < k
        invariant
            j <= k,
            2 <= b <= 16,
            rev@.len() == j,
            char_digits(n as int, k as nat, b as int) == char_digits(
                m as int,
                (k - j) as nat,
                b as int,
            ) + rev@.reverse(),
        decreases k - j,
    {
        let ghost old_rev = rev@;
        let ghost old_m = m as int;
        let d = m % b;
        rev.push(hexd_exec(d));
        m = m / b;
        j = j + 1;
        proof {
            assert(rev@.reverse() =~= seq![hexd(old_m % b as int)] + old_rev.reverse());
            assert(char_digits(old_m, (k - j + 1) as nat, b as int) == char_digits(
                old_m / (b as int),
                (k - j) as nat,
                b as int,
            ) + seq![hexd(old_m % b as int)]);
            assert(char_digits(n as int, k as nat, b as int) =~= char_digits(
                m as int,
                (k - j) as nat,
                b as int,
            ) + rev@.reverse());
        }
    }
    proof {
        assert(char_digits(m as int, 0, b as int) == Seq::<char>::empty());
        assert(char_digits(n as int, k as nat, b as int) =~= rev@.reverse());
    }
    let mut t: usize = 0;
    while t < k
        invariant
            t <= k,
            rev@.len() == k,
            char_digits(n as int, k as nat, b as int) == rev@.reverse(),
            out@ == old(out)@ + rev@.reverse().take(t as int),
        decreases k - t,
    {
        out.push(rev[k - 1 - t]);
        t = t + 1;
        proof {
            assert(rev@.reverse()[t - 1] == rev@[k - t]);
            assert(out@ =~= old(out)@ + rev@.reverse().take(t as int));
        }
    }
    proof {
        assert(rev@.reverse().take(k as int) =~= rev@.reverse());
    }
}

/// Appends the hex encoding of `t`.
fn push_text(out: &mut Vec<char>, t: &Vec<char>)
    ensures
        final(out)@ == old(out)@ + text_enc(t@),
{
    let n = t.len();
    let mut i: usize = 0;
    proof {
        assert(t@.take(0).len() == 0);
        assert(out@ =~= old(out)@ + text_enc(t@.take(0)));
    }
    while i < n
        invariant
            i <= n,
            n == t@.len(),
            out@ == old(out)@ + text_enc(t@.take(i as int)),
        decreases n - i,
    {
        let c = t[i];
        let v: u32 = c as u32;
        push_digits(out, v as u64, 6, 16);
        i = i + 1;
        proof {
            assert(t@.take(i as int).drop_last() =~= t@.take(i - 1));
            assert(t@.take(i as int).last() == t@[i - 1]);
            assert(text_enc(t@.take(i as int)) == text_enc(t@.take(i - 1)) + hex6(t@[i - 1]));
            assert(v as u64 as int == c as u32 as int);
            assert(out@ =~= old(out)@ + text_enc(t@.take(i as int)));
        }
    }
    proof {
        assert(t@.take(n as int) =~= t@);
    }
}

/// Appends one encoded record.
fn push_entry(out: &mut Vec<char>, path: &Vec<char>, entry: &crate::journal::JournalEntry)
    ensures
        final(out)@ == old(out)@ + entry_enc(
            EntryModel { path: path@, sig: entry.sig, dest: entry.dest@ },
        ),
{
    crate::text::push_str_chars(out, "{\"path\":\"");
    proof {
        reveal_strlit("{\"path\":\"");
        assert("{\"path\":\""@ =~= lit_path());
    }
    push_text(out, path);
    crate::text::push_str_chars(out, "\",\"size\":\"");
    proof {
        reveal_strlit("\",\"size\":\"");
        assert("\",\"size\":\""@ =~= lit_size());
    }
    push_digits(out, entry.sig.size, 20, 10);
    crate::text::push_str_chars(out, "\",\"mtime\":\"");
    proof {
        reveal_strlit("\",\"mtime\":\"");
        assert("\",\"mtime\":\""@ =~= lit_mtime());
    }
    push_digits(out, entry.sig.mtime, 20, 10);
    crate::text::push_str_chars(out, "\",\"dest\":\"");
    proof {
        reveal_strlit("\",\"dest\":\"");
        assert("\",\"dest\":\""@ =~= lit_dest());
    }
    push_text(out, &entry.dest);
    crate::text::push_str_chars(out, "\"}");
    proof {
        reveal_strlit("\"}");
        assert("\"}"@ =~= lit_entry_end());
        assert(out@ =~= old(out)@ + entry_enc(
            EntryModel { path: path@, sig: entry.sig, dest: entry.dest@ },
        ));
    }
}

/// Encodes the whole journal as its canonical snapshot document.
pub fn encode_snapshot(journal: &crate::journal::Journal) -> (r: Vec<char>)
    ensures
        r@ == snapshot_enc(journal@),
{
    let mut out: Vec<char> = Vec::new();
    crate::text::push_str_chars(&mut out, "{\"count\":\"");
    proof {
        reveal_strlit("{\"count\":\"");
        assert("{\"count\":\""@ =~= lit_head());
    }
    let n = journal.entries.len();
    push_digits(&mut out, n as u64, 20, 10);
    crate::text::push_str_chars(&mut out, "\",\"entries\":[");
    proof {
        reveal_strlit("\",\"entries\":[");
        assert("\",\"entries\":["@ =~= lit_mid());
    }
    let ghost prefix = lit_head() + char_digits(journal@.len() as int, 20, 10) + lit_mid();
    proof {
        assert(journal@.take(0).len() == 0);
        assert(entries_enc(journal@.take(0)) == Seq::<char>::empty());
        assert(out@ =~= prefix + entries_enc(journal@.take(0)));
    }
    let mut i: usize = 0;
    while i < n
        invariant
            i <= n,
            n == journal@.len(),
            n == journal.entries@.len(),
            prefix == lit_head() + char_digits(journal@.len() as int, 20, 10) + lit_mid(),
            out@ == prefix + entries_enc(journal@.take(i as int)),
        decreases n - i,
    {
        if i > 0 {
            out.push(',');
        }
        let pair = &journal.entries[i];
        push_entry(&mut out, &pair.0, &pair.1);
        i = i + 1;
        proof {
            assert(journal@[i - 1] == EntryModel {
                path: journal.entries@[i - 1].0@,
                sig: journal.entries@[i - 1].1.sig,
                dest: journal.entries@[i - 1].1.dest@,
            });
            assert(journal@.take(i as int).drop_last() =~= journal@.take(i - 1));
            assert(journal@.take(i as int).last() == journal@[i - 1]);
            if i == 1 {
                assert(entries_enc(journal@.take(1)) == entry_enc(journal@[0]));
            } else {
                assert(entries_enc(journal@.take(i as int)) == entries_enc(journal@.take(i - 1))
                    + seq![','] + entry_enc(journal@[i - 1]));
            }
            assert(out@ =~= prefix + entries_enc(journal@.take(i as int)));
        }
    }
    crate::text::push_str_chars(&mut out, "]}");
    proof {
        reveal_strlit("]}");
        assert("]}"@ =~= lit_end());
        assert(journal@.take(n as int) =~= journal@);
        assert(out@ =~= snapshot_enc(journal@));
    }
    out
}

/// A larger base never yields a smaller power.
proof fn lemma_pow_base_le(b1: int, b2: int, e: nat)
    requires
        1 <= b1 <= b2,
    ensures
        pow(b1, e) <= pow(b2, e),
    decreases e,
{
    reveal(pow);
    if e > 0 {
        lemma_pow_base_le(b1, b2, (e - 1) as nat);
        vstd::arithmetic::power::lemma_pow_positive(b1, (e - 1) as nat);
        assert(b1 * pow(b1, (e - 1) as nat) <= b2 * pow(b2, (e - 1) as nat)) by (nonlinear_arith)
            requires
                1 <= b1 <= b2,
                0 <= pow(b1, (e - 1) as nat) <= pow(b2, (e - 1) as nat),
        ;
    }
}

/// Why a snapshot was rejected.
#[derive(Clone, Copy, PartialEq, Eq, Structural, Debug)]
pub enum SnapshotError {
    /// The text is not a canonical snapshot document.
    Malformed,
    /// The document parses but holds two records for one path.
    DuplicatePath,
}

/// Relies on std's `char::from_u32`: it returns `Some` exactly for Unicode
/// scalar values — at most `0x10FFFF` and not a surrogate — and the returned
/// character casts back to the given value.
pub assume_specification[ char::from_u32 ](v: u32) -> (r: Option<char>)
    ensures
        r matches Option::Some(c) ==> c as u32 == v,
        r is Some <==> vstd::utf8::is_scalar(v),
;

/// Whether `lit` sits in `s` at position `i`.
fn p_match(s: &Vec<char>, i: usize, lit: &Vec<char>) -> (r: bool)
    ensures
        r == sp_match(s@, i as int, lit@),
{
    if i > s.len() || s.len() - i < lit.len() {
        return false;
    }
    let n = lit.len();
    let mut q: usize = 0;
    while q < n
        invariant
            q <= n,
            n == lit@.len(),
            i + n <= s@.len(),
            s@.len() <= usize::MAX,
            forall|w: int| 0 <= w < q ==> s@[i + w] == lit@[w],
        decreases n - q,
    {
        if s[i + q] != lit[q] {
            proof {
                assert(s@.subrange(i as int, i + n as int)[q as int] == s@[i + q]);
            }
            return false;
        }
        q = q + 1;
    }
    proof {
        assert(s@.subrange(i as int, i + n as int) =~= lit@);
    }
    true
}

/// The value of the `k` base-`b` digits at position `i`.
fn p_digits(s: &Vec<char>, i: usize, k: usize, b: u64) -> (r: Option<u128>)
    requires
        2 <= b <= 16,
        k <= 20,
    ensures
        match sp_digits(s@, i as int, k as nat, b as int) {
            Option::Some(v) => r matches Option::Some(a) && a as int == v,
            Option::None => r is None,
        },
{
    if i > s.len() || s.len() - i < k {
        return Option::None;
    }
    let mut acc: u128 = 0;
    let mut t: usize = 0;
    proof {
        assert(s@.subrange(i as int, i as int).len() == 0);
        vstd::arithmetic::power::lemma_pow_positive(b as int, 0);
    }
    while t < k
        invariant
            t <= k,
            k <= 20,
            2 <= b <= 16,
            i + k <= s@.len(),
            s@.len() <= usize::MAX,
            forall|w: int| 0 <= w < t ==> hex_val(#[trigger] s@[i + w]) < b,
            acc as int == base_value(s@.subrange(i as int, i + t as int), b as int),
            (acc as int) < pow(b as int, t as nat),
        decreases k - t,
    {
        let d = hex_val_exec(s[i + t]);
        if d >= b {
            proof {
                assert(hex_val(s@[i + t as int]) >= b);
            }
            return Option::None;
        }
        proof {
            assert(pow(b as int, (t + 1) as nat) == b * pow(b as int, t as nat)) by {
                reveal(pow);
            }
            assert((acc as int) * (b as int) + (d as int) < (b as int) * pow(b as int, t as nat))
                by (nonlinear_arith)
                requires
                    2 <= (b as int) <= 16,
                    0 <= acc as int,
                    (acc as int) < pow(b as int, t as nat),
                    0 <= d as int,
                    (d as int) < b as int,
            ;
            assert(pow(b as int, (t + 1) as nat) <= pow(16, 20)) by {
                vstd::arithmetic::power::lemma_pow_increases(b as nat, (t + 1) as nat, 20);
                lemma_pow_base_le(b as int, 16, 20);
            }
            assert(pow(16, 20) < 0x100000000000000000000000000000000) by {
                reveal_with_fuel(pow, 21);
            }
        }
        acc = acc * (b as u128) + (d as u128);
        t = t + 1;
        proof {
            assert(s@.subrange(i as int, i + t as int).drop_last() =~= s@.subrange(
                i as int,
                i + t - 1 as int,
            ));
            assert(s@.subrange(i as int, i + t as int).last() == s@[i + t - 1]);
            assert((b as int) * pow(b as int, (t - 1) as nat) == pow(b as int, t as nat)) by {
                reveal(pow);
            }
        }
    }
    proof {
        assert(sp_digits(s@, i as int, k as nat, b as int) == Option::Some(base_value(
            s@.subrange(i as int, i + k as int),
            b as int,
        )));
    }
    Option::Some(acc)
}

/// The hex-encoded string from position `i` up to the next `"`.
fn p_text(s: &Vec<char>, i: usize) -> (r: Option<(Vec<char>, usize)>)
    ensures
        match sp_text(s@, i as int) {
            Option::Some((t, j)) => r matches Option::Some(p) && p.0@ == t && p.1 as int == j,
            Option::None => r is None,
        },
{
    let mut out: Vec<char> = Vec::new();
    let mut pos: usize = i;
    proof {
        assert(out@ =~= Seq::<char>::empty());
        match sp_text(s@, i as int) {
            Option::Some((t, j)) => {
                assert(out@ + t =~= t);
            }
            Option::None => {}
        }
    }
    while pos < s.len()
        invariant
            i <= pos,
            pos <= s@.len() || pos == i,
            match sp_text(s@, pos as int) {
                Option::Some((t, j)) => sp_text(s@, i as int) == Option::Some(
                    (out@ + t, j),
                ),
                Option::None => sp_text(s@, i as int) is None,
            },
        decreases s@.len() - pos,
    {
        let c = s[pos];
        if c == '"' {
            proof {
                assert(sp_text(s@, pos as int) == Option::Some((Seq::<char>::empty(), pos as int)));
                assert(out@ + Seq::<char>::empty() =~= out@);
            }
            return Option::Some((out, pos));
        }
        if s.len() - pos < 6 {
            proof {
                assert(sp_text(s@, pos as int) is None);
            }
            return Option::None;
        }
        match p_digits(s, pos, 6, 16) {
            Option::None => {
                proof {
                    assert(sp_digits(s@, pos as int, 6, 16) is None);
                    assert(sp_text(s@, pos as int) is None);
                }
                return Option::None;
            }
            Option::Some(a) => {
                proof {
                    assert(sp_digits(s@, pos as int, 6, 16) == Option::Some(base_value(
                        s@.subrange(pos as int, pos + 6 as int),
                        16,
                    )));
                    assert forall|w: int| 0 <= w < 6 implies hex_val(
                        #[trigger] s@.subrange(pos as int, pos + 6 as int)[w],
                    ) < 16 by {
                        assert(s@.subrange(pos as int, pos + 6 as int)[w] == s@[pos + w]);
                    }
                    lemma_base_value_bound(s@.subrange(pos as int, pos + 6 as int), 16);
                    assert(pow(16, 6) == 0x1000000) by {
                        reveal_with_fuel(pow, 7);
                    }
                    assert(0 <= a < 0x1000000);
                }
                let v: u32 = a as u32;
                match char::from_u32(v) {
                    Option::None => {
                        proof {
                            assert(!vstd::utf8::is_scalar(v));
                            assert(sp_text(s@, pos as int) is None);
                        }
                        return Option::None;
                    }
                    Option::Some(ch) => {
                        let ghost oldpos = pos as int;
                        proof {
                            vstd::utf8::char_u32_cast(ch, v);
                            let av = base_value(s@.subrange(oldpos, oldpos + 6), 16);
                            assert(av as u32 == v);
                            assert((av as u32) as char == ch);
                            assert(vstd::utf8::is_scalar(av as u32));
                            assert(sp_text(s@, oldpos) == (match sp_text(s@, oldpos + 6) {
                                Option::Some((t2, j2)) => Option::<(Seq<char>, int)>::Some(
                                    (seq![ch] + t2, j2),
                                ),
                                Option::None => Option::<(Seq<char>, int)>::None,
                            }));
                        }
                        out.push(ch);
                        pos = pos + 6;
                        proof {
                            match sp_text(s@, pos as int) {
                                Option::Some((t2, j2)) => {
                                    assert(out@ + t2 =~= out@.drop_last() + (seq![ch] + t2));
                                }
                                Option::None => {}
                            }
                        }
                    }
                }
            }
        }
    }
    proof {
        assert(sp_text(s@, pos as int) is None);
    }
    Option::None
}

/// One encoded record at position `i`.
#[verifier::rlimit(30)]
fn p_entry(
    s: &Vec<char>,
    i: usize,
    l_path: &Vec<char>,
    l_size: &Vec<char>,
    l_mtime: &Vec<char>,
    l_dest: &Vec<char>,
    l_entry_end: &Vec<char>,
) -> (r: Option<((Vec<char>, crate::journal::JournalEntry), usize)>)
    requires
        l_path@ == lit_path(),
        l_size@ == lit_size(),
        l_mtime@ == lit_mtime(),
        l_dest@ == lit_dest(),
        l_entry_end@ == lit_entry_end(),
    ensures
        match sp_entry(s@, i as int) {
            Option::Some((e, j)) => r matches Option::Some(p) && p.0.0@ == e.path
                && p.0.1.sig == e.sig && p.0.1.dest@ == e.dest && p.1 as int == j,
            Option::None => r is None,
        },
{
    if !p_match(s, i, l_path) {
        return Option::None;
    }
    let slen = s.len();
    match p_text(s, i + 9) {
        Option::None => Option::None,
        Option::Some((path, j1)) => {
            if !p_match(s, j1, l_size) {
                return Option::None;
            }
            match p_digits(s, j1 + 10, 20, 10) {
                Option::None => Option::None,
                Option::Some(a_size) => {
                    if a_size > u64::MAX as u128 {
                        return Option::None;
                    }
                    if !p_match(s, j1 + 30, l_mtime) {
                        return Option::None;
                    }
                    match p_digits(s, j1 + 41, 20, 10) {
                        Option::None => Option::None,
                        Option::Some(a_mtime) => {
                            if a_mtime > u64::MAX as u128 {
                                return Option::None;
                            }
                            if !p_match(s, j1 + 61, l_dest) {
                                return Option::None;
                            }
                            match p_text(s, j1 + 71) {
                                Option::None => Option::None,
                                Option::Some((dest, j2)) => {
                                    if !p_match(s, j2, l_entry_end) {
                                        return Option::None;
                                    }
                                    Option::Some(
                                        (
                                            (
                                                path,
                                                crate::journal::JournalEntry {
                                                    sig: Signature {
                                                        size: a_size as u64,
                                                        mtime: a_mtime as u64,
                                                    },
                                                    dest: dest,
                                                },
                                            ),
                                            j2 + 2,
                                        ),
                                    )
                                }
                            }
                        }
                    }
                }
            }
        }
    }
}

/// Exactly `n` encoded records from position `start`, comma-separated.
fn p_entries(
    s: &Vec<char>,
    start: usize,
    n: u64,
    l_path: &Vec<char>,
    l_size: &Vec<char>,
    l_mtime: &Vec<char>,
    l_dest: &Vec<char>,
    l_entry_end: &Vec<char>,
) -> (r: Option<(Vec<(Vec<char>, crate::journal::JournalEntry)>, usize)>)
    requires
        l_path@ == lit_path(),
        l_size@ == lit_size(),
        l_mtime@ == lit_mtime(),
        l_dest@ == lit_dest(),
        l_entry_end@ == lit_entry_end(),
    ensures
        match sp_entries(s@, start as int, n as nat) {
            Option::Some((rs, j)) => r matches Option::Some(p)
                && crate::journal::entry_models(p.0@) == rs && p.1 as int == j,
            Option::None => r is None,
        },
{
    let mut acc: Vec<(Vec<char>, crate::journal::JournalEntry)> = Vec::new();
    let mut pos: usize = start;
    let mut done: u64 = 0;
    proof {
        assert(crate::journal::entry_models(acc@) =~= Seq::<EntryModel>::empty());
        match sp_entries(s@, start as int, n as nat) {
            Option::Some((t, j)) => {
                assert(crate::journal::entry_models(acc@) + t =~= t);
            }
            Option::None => {}
        }
    }
    while done < n
        invariant
            done <= n,
            l_path@ == lit_path(),
            l_size@ == lit_size(),
            l_mtime@ == lit_mtime(),
            l_dest@ == lit_dest(),
            l_entry_end@ == lit_entry_end(),
            match sp_entries(s@, pos as int, (n - done) as nat) {
                Option::Some((t, j)) => sp_entries(s@, start as int, n as nat) == Option::Some(
                    (crate::journal::entry_models(acc@) + t, j),
                ),
                Option::None => sp_entries(s@, start as int, n as nat) is None,
            },
        decreases n - done,
    {
        let ghost old_pos = pos as int;
        let ghost old_models = crate::journal::entry_models(acc@);
        match p_entry(s, pos, l_path, l_size, l_mtime, l_dest, l_entry_end) {
            Option::None => {
                proof {
                    assert(sp_entries(s@, old_pos, (n - done) as nat) is None);
                }
                return Option::None;
            }
            Option::Some((pair, j)) => {
                let ghost e = sp_entry(s@, old_pos)->Some_0.0;
                proof {
                    assert(e == EntryModel { path: pair.0@, sig: pair.1.sig, dest: pair.1.dest@ });
                }
                acc.push(pair);
                proof {
                    assert(crate::journal::entry_models(acc@) =~= old_models.push(e));
                }
                let remaining = n - done;
                if remaining == 1 {
                    pos = j;
                    proof {
                        assert(sp_entries(s@, old_pos, 1) == Option::Some(
                            (seq![e], j as int),
                        ));
                        assert(old_models + seq![e] =~= crate::journal::entry_models(acc@));
                        assert(crate::journal::entry_models(acc@) + Seq::<EntryModel>::empty()
                            =~= crate::journal::entry_models(acc@));
                    }
                } else {
                    if j >= s.len() {
                        proof {
                            assert(sp_entries(s@, old_pos, (n - done) as nat) is None);
                        }
                        return Option::None;
                    }
                    if s[j] != ',' {
                        proof {
                            assert(sp_entries(s@, old_pos, (n - done) as nat) is None);
                        }
                        return Option::None;
                    }
                    pos = j + 1;
                    proof {
                        assert(sp_entries(s@, old_pos, (n - done) as nat) == (match sp_entries(
                            s@,
                            pos as int,
                            (n - done - 1) as nat,
                        ) {
                            Option::Some((t2, k2)) => Option::<(Seq<EntryModel>, int)>::Some(
                                (seq![e] + t2, k2),
                            ),
                            Option::None => Option::<(Seq<EntryModel>, int)>::None,
                        }));
                        match sp_entries(s@, pos as int, (n - done - 1) as nat) {
                            Option::Some((t2, k2)) => {
                                assert(old_models + (seq![e] + t2) =~= crate::journal::entry_models(
                                    acc@,
                                ) + t2);
                            }
                            Option::None => {}
                        }
                    }
                }
                done = done + 1;
            }
        }
    }
    Option::Some((acc, pos))
}

/// Parses a snapshot document back into a clean journal. The result is `Ok`
/// exactly when the text is a canonical snapshot whose records hold one
/// entry per path; a non-canonical text is `Malformed`, a canonical one with
/// a repeated path is `DuplicatePath`.
pub fn parse_snapshot(text: &Vec<char>) -> (r: Result<crate::journal::Journal, SnapshotError>)
    ensures
        match sp_snapshot(text@) {
            Option::Some(rs) => if crate::journal::journal_wf(rs) {
                r matches Result::Ok(j) && j@ == rs && !j.dirty
            } else {
                r == Result::<crate::journal::Journal, SnapshotError>::Err(
                    SnapshotError::DuplicatePath,
                )
            },
            Option::None => r == Result::<crate::journal::Journal, SnapshotError>::Err(
                SnapshotError::Malformed,
            ),
        },
{
    let l_head = crate::text::str_chars("{\"count\":\"");
    let l_mid = crate::text::str_chars("\",\"entries\":[");
    let l_path = crate::text::str_chars("{\"path\":\"");
    let l_size = crate::text::str_chars("\",\"size\":\"");
    let l_mtime = crate::text::str_chars("\",\"mtime\":\"");
    let l_dest = crate::text::str_chars("\",\"dest\":\"");
    let l_entry_end = crate::text::str_chars("\"}");
    let l_end = crate::text::str_chars("]}");
    proof {
        reveal_strlit("{\"count\":\"");
        reveal_strlit("\",\"entries\":[");
        reveal_strlit("{\"path\":\"");
        reveal_strlit("\",\"size\":\"");
        reveal_strlit("\",\"mtime\":\"");
        reveal_strlit("\",\"dest\":\"");
        reveal_strlit("\"}");
        reveal_strlit("]}");
        assert(l_head@ =~= lit_head());
        assert(l_mid@ =~= lit_mid());
        assert(l_path@ =~= lit_path());
        assert(l_size@ =~= lit_size());
        assert(l_mtime@ =~= lit_mtime());
        assert(l_dest@ =~= lit_dest());
        assert(l_entry_end@ =~= lit_entry_end());
        assert(l_end@ =~= lit_end());
    }
    if !p_match(text, 0, &l_head) {
        return Result::Err(SnapshotError::Malformed);
    }
    match p_digits(text, 10, 20, 10) {
        Option::None => Result::Err(SnapshotError::Malformed),
        Option::Some(a) => {
            if a > u64::MAX as u128 {
                return Result::Err(SnapshotError::Malformed);
            }
            let n = a as u64;
            if !p_match(text, 30, &l_mid) {
                return Result::Err(SnapshotError::Malformed);
            }
            match p_entries(text, 43, n, &l_path, &l_size, &l_mtime, &l_dest, &l_entry_end) {
                Option::None => Result::Err(SnapshotError::Malformed),
                Option::Some((entries, j)) => {
                    if !p_match(text, j, &l_end) {
                        return Result::Err(SnapshotError::Malformed);
                    }
                    let tl = text.len();
                    if j + 2 != tl {
                        return Result::Err(SnapshotError::Malformed);
                    }
                    let ghost rs = crate::journal::entry_models(entries@);
                    proof {
                        assert(sp_snapshot(text@) == Option::Some(rs));
                    }
                    let m = entries.len();
                    let mut x: usize = 0;
                    while x < m
                        invariant
                            x <= m,
                            m == entries@.len(),
                            rs == crate::journal::entry_models(entries@),
                            sp_snapshot(text@) == Option::Some(rs),
                            forall|u: int, w: int|
                                0 <= u < w < m && u < x ==> rs[u].path != rs[w].path,
                        decreases m - x,
                    {
                        let mut y: usize = x + 1;
                        while y < m
                            invariant
                                x < y <= m || (x + 1 == y && y > m),
                                x < m,
                                m == entries@.len(),
                                rs == crate::journal::entry_models(entries@),
                                sp_snapshot(text@) == Option::Some(rs),
                                forall|w: int| x < w < y ==> rs[x as int].path != rs[w].path,
                            decreases m - y,
                        {
                            if crate::text::text_eq(&entries[x].0, &entries[y].0) {
                                proof {
                                    assert(rs[x as int].path == rs[y as int].path);
                                    assert(!crate::journal::journal_wf(rs));
                                }
                                return Result::Err(SnapshotError::DuplicatePath);
                            }
                            y = y + 1;
                        }
                        x = x + 1;
                    }
                    proof {
                        assert(crate::journal::journal_wf(rs));
                    }
                    let journal = crate::journal::Journal { entries: entries, dirty: false };
                    Result::Ok(journal)
                }
            }
        }
    }
}

} // verus!

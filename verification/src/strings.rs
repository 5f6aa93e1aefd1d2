//! String helpers with their meaning stated over `Seq<char>` / UTF-8 bytes:
//! byte-wise lexicographic order (the order Rust's `str` comparisons use),
//! joining with a separator, and lowercase hex encoding.
use vstd::prelude::*;
use vstd::string::*;
use vstd::utf8::*;

verus! {

broadcast use vstd::utf8::group_utf8_lib;

/// Lexicographic `a <= b`, comparing from position `i` onward.
pub open spec fn lex_le_from(a: Seq<u8>, b: Seq<u8>, i: nat) -> bool
    decreases a.len() - i,
{
    if i >= a.len() {
        true
    } else if i >= b.len() {
        false
    } else if a[i as int] < b[i as int] {
        true
    } else if a[i as int] > b[i as int] {
        false
    } else {
        lex_le_from(a, b, i + 1)
    }
}

/// Lexicographic order on byte strings: the order of `<=` on `str` and `[u8]`.
pub open spec fn lex_le(a: Seq<u8>, b: Seq<u8>) -> bool {
    lex_le_from(a, b, 0)
}

/// The bytes of a text, as Rust stores it.
pub open spec fn utf8(s: Seq<char>) -> Seq<u8> {
    encode_utf8(s)
}

/// `a >= b` on strings, as Rust's `str` ordering decides it.
pub open spec fn str_ge(a: Seq<char>, b: Seq<char>) -> bool {
    lex_le(utf8(b), utf8(a))
}

proof fn lemma_lex_total_from(a: Seq<u8>, b: Seq<u8>, i: nat)
    ensures
        lex_le_from(a, b, i) || lex_le_from(b, a, i),
    decreases a.len() - i,
{
    if i < a.len() && i < b.len() && a[i as int] == b[i as int] {
        lemma_lex_total_from(a, b, i + 1);
    }
}

proof fn lemma_lex_antisym_from(a: Seq<u8>, b: Seq<u8>, i: nat)
    requires
        lex_le_from(a, b, i),
        lex_le_from(b, a, i),
        i <= a.len(),
        i <= b.len(),
    ensures
        a.len() == b.len(),
        forall|k: int| i <= k < a.len() ==> a[k] == b[k],
    decreases a.len() - i,
{
    if i < a.len() {
        lemma_lex_antisym_from(a, b, i + 1);
    }
}

/// Byte-lexicographic order is total.
pub proof fn lemma_lex_total(a: Seq<u8>, b: Seq<u8>)
    ensures
        lex_le(a, b) || lex_le(b, a),
{
    lemma_lex_total_from(a, b, 0);
}

/// Byte-lexicographic order is antisymmetric.
pub proof fn lemma_lex_antisym(a: Seq<u8>, b: Seq<u8>)
    requires
        lex_le(a, b),
        lex_le(b, a),
    ensures
        a == b,
{
    lemma_lex_antisym_from(a, b, 0);
    assert(a =~= b);
}

/// `>=` on strings is total, and both directions only hold of equal strings.
pub proof fn lemma_str_ge_total(a: Seq<char>, b: Seq<char>)
    ensures
        str_ge(a, b) || str_ge(b, a),
        str_ge(a, b) && str_ge(b, a) ==> a == b,
{
    lemma_lex_total(utf8(a), utf8(b));
    if str_ge(a, b) && str_ge(b, a) {
        lemma_lex_antisym(utf8(a), utf8(b));
        encode_utf8_decode_utf8(a);
        encode_utf8_decode_utf8(b);
    }
}

proof fn lemma_lex_trans_from(a: Seq<u8>, b: Seq<u8>, c: Seq<u8>, i: nat)
    requires
        lex_le_from(a, b, i),
        lex_le_from(b, c, i),
    ensures
        lex_le_from(a, c, i),
    decreases a.len() - i,
{
    if i < a.len() && i < b.len() && i < c.len() && a[i as int] == b[i as int] && b[i as int]
        == c[i as int] {
        lemma_lex_trans_from(a, b, c, i + 1);
    }
}

/// `>=` on strings is transitive.
pub proof fn lemma_str_ge_transitive(a: Seq<char>, b: Seq<char>, c: Seq<char>)
    ensures
        str_ge(a, b) && str_ge(b, c) ==> str_ge(a, c),
{
    if str_ge(a, b) && str_ge(b, c) {
        lemma_lex_trans_from(utf8(c), utf8(b), utf8(a), 0);
    }
}

/// Byte-lexicographic `a <= b`.
pub fn bytes_le(a: &[u8], b: &[u8]) -> (r: bool)
    ensures
        r == lex_le(a@, b@),
{
    let mut i: usize = 0;
    while i < a.len()
        invariant
            i <= a@.len(),
            lex_le(a@, b@) == lex_le_from(a@, b@, i as nat),
        decreases a@.len() - i,
    {
        if i >= b.len() {
            return false;
        }
        if a[i] < b[i] {
            return true;
        }
        if a[i] > b[i] {
            return false;
        }
        i = i + 1;
    }
    true
}

/// `a >= b`, in the order Rust's `str` comparison uses.
pub fn str_ge_exec(a: &str, b: &str) -> (r: bool)
    ensures
        r == str_ge(a@, b@),
{
    bytes_le(b.as_bytes(), a.as_bytes())
}

/// The parts joined with the separator between each two of them, as
/// `[String]::join` builds it.
pub open spec fn join(parts: Seq<Seq<char>>, sep: Seq<char>) -> Seq<char>
    decreases parts.len(),
{
    if parts.len() == 0 {
        Seq::empty()
    } else if parts.len() == 1 {
        parts[0]
    } else {
        join(parts.drop_last(), sep) + sep + parts.last()
    }
}

/// The views of a vector of strings.
pub open spec fn views(v: Seq<String>) -> Seq<Seq<char>> {
    v.map_values(|s: String| s@)
}

/// The strings joined with `sep` between each two of them.
pub fn join_strings(parts: &Vec<String>, sep: &str) -> (r: String)
    ensures
        r@ == join(views(parts@), sep@),
{
    let mut out = String::new();
    let ghost vs = views(parts@);
    let mut i: usize = 0;
    while i < parts.len()
        invariant
            i <= parts@.len(),
            vs == views(parts@),
            out@ == join(vs.take(i as int), sep@),
        decreases parts@.len() - i,
    {
        if i != 0 {
            out.append(sep);
        }
        out.append(parts[i].as_str());
        assert(vs.take(i + 1).drop_last() =~= vs.take(i as int));
        i = i + 1;
    }
    assert(vs.take(parts@.len() as int) =~= vs);
    out
}

/// The lowercase hexadecimal digit for a value below 16.
pub open spec fn hex_digit(n: int) -> char {
    if n < 10 {
        (('0' as int) + n) as char
    } else {
        (('a' as int) + n - 10) as char
    }
}

/// Lowercase hex of a byte string, two digits per byte, high nibble first.
pub open spec fn hex_lower(bytes: Seq<u8>) -> Seq<char>
    decreases bytes.len(),
{
    if bytes.len() == 0 {
        Seq::empty()
    } else {
        hex_lower(bytes.drop_last()) + seq![
            hex_digit(bytes.last() as int / 16),
            hex_digit(bytes.last() as int % 16),
        ]
    }
}

fn hex_digit_str(n: u8) -> (r: &'static str)
    requires
        n < 16,
    ensures
        r@ == seq![hex_digit(n as int)],
{
    let digits = "0123456789abcdef";
    proof {
        reveal_strlit("0123456789abcdef");
    }
    let r = digits.substring_char(n as usize, n as usize + 1);
    assert(r@ =~= seq![hex_digit(n as int)]);
    r
}

/// Lowercase hex of the bytes: the text form of a chunk hash.
pub fn to_hex(bytes: &[u8]) -> (r: String)
    ensures
        r@ == hex_lower(bytes@),
        r@.len() == 2 * bytes@.len(),
{
    let mut out = String::new();
    let mut i: usize = 0;
    while i < bytes.len()
        invariant
            i <= bytes@.len(),
            out@ == hex_lower(bytes@.take(i as int)),
            out@.len() == 2 * i,
        decreases bytes@.len() - i,
    {
        let b = bytes[i];
        out.append(hex_digit_str(b / 16));
        out.append(hex_digit_str(b % 16));
        assert(bytes@.take(i + 1).drop_last() =~= bytes@.take(i as int));
        i = i + 1;
    }
    assert(bytes@.take(bytes@.len() as int) =~= bytes@);
    out
}

} // verus!

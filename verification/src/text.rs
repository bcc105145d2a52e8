//! Text and byte-string groundwork: the few standard-library string
//! operations the engine leans on (Unicode case folding, UTF-8 decoding,
//! whitespace trimming), and verified comparisons over byte keys.

use vstd::prelude::*;

verus! {

use vstd::string::StrSliceExecFns;
use vstd::utf8::{decode_utf8, valid_utf8};

/// The character sequence `str::to_lowercase` yields: a function of the
/// input characters alone.
pub uninterp spec fn lower_of(s: Seq<char>) -> Seq<char>;

/// The character sequence `String::from_utf8_lossy` yields: a function of
/// the input bytes alone.
pub uninterp spec fn lossy_of(bytes: Seq<u8>) -> Seq<char>;

/// The character sequence `str::trim` yields: a function of the input
/// characters alone.
pub uninterp spec fn trim_of(s: Seq<char>) -> Seq<char>;

/// The UTF-8 bytes of the lowercase fold of `s`: the form headwords and
/// queries take as keys of the prefix index.
pub open spec fn key_of(s: Seq<char>) -> Seq<u8> {
    vstd::utf8::encode_utf8(lower_of(s))
}

/// Relies on str::to_lowercase: the Unicode lowercase fold, a function of
/// the characters alone; an empty string stays empty, and the fold is
/// idempotent — every character it emits is left unchanged by a second
/// fold.
#[verifier::external_body]
pub fn to_lower(s: &str) -> (r: String)
    ensures
        r@ == lower_of(s@),
        s@.len() == 0 ==> r@.len() == 0,
        lower_of(r@) == r@,
{
    s.to_lowercase()
}

/// The lowercase fold of `s` as UTF-8 key bytes. An already-folded string
/// yields the same key as its original-case form: queries are
/// case-insensitive.
pub fn key_bytes(s: &str) -> (r: Vec<u8>)
    ensures
        r@ == key_of(s@),
        key_of(lower_of(s@)) == key_of(s@),
{
    let lower = to_lower(s);
    lower.as_str().as_bytes_vec()
}

/// The character sequence `str::to_uppercase` yields: a function of the
/// input characters alone.
pub uninterp spec fn upper_of(s: Seq<char>) -> Seq<char>;

/// Relies on str::to_uppercase: the Unicode uppercase fold, a function of
/// the characters alone.
#[verifier::external_body]
pub fn to_upper(s: &str) -> (r: String)
    ensures
        r@ == upper_of(s@),
{
    s.to_uppercase()
}

/// True when the characters of `pat` occur as a contiguous run in `s`.
pub open spec fn has_substring(s: Seq<char>, pat: Seq<char>) -> bool {
    exists|i: int| 0 <= i <= s.len() - pat.len() && #[trigger] s.subrange(i, i + pat.len()) == pat
}

/// Relies on str::contains with a string pattern: true exactly when the
/// pattern's characters occur contiguously in `s`.
#[verifier::external_body]
pub fn str_contains(s: &str, pat: &str) -> (r: bool)
    ensures
        r == has_substring(s@, pat@),
{
    s.contains(pat)
}

/// Relies on String::from_utf8_lossy: a function of the bytes alone, the
/// decoded text itself wherever the bytes are valid UTF-8.
#[verifier::external_body]
pub fn lossy_string(bytes: &[u8]) -> (r: String)
    ensures
        r@ == lossy_of(bytes@),
        valid_utf8(bytes@) ==> r@ == decode_utf8(bytes@),
{
    String::from_utf8_lossy(bytes).into_owned()
}

/// Relies on std::str::from_utf8: succeeds exactly on valid UTF-8 and
/// decodes it.
#[verifier::external_body]
pub fn utf8_text(bytes: &[u8]) -> (r: Option<&str>)
    ensures
        r matches Some(t) ==> valid_utf8(bytes@) && t@ == decode_utf8(bytes@),
        r is None ==> !valid_utf8(bytes@),
{
    core::str::from_utf8(bytes).ok()
}

/// Relies on str::trim: drops leading and trailing whitespace, a function
/// of the characters alone.
#[verifier::external_body]
pub fn trim_text(s: &str) -> (r: &str)
    ensures
        r@ == trim_of(s@),
{
    s.trim()
}

/// True when `p` is a prefix of `s`.
pub open spec fn is_prefix(p: Seq<u8>, s: Seq<u8>) -> bool {
    p.len() <= s.len() && forall|i: int| 0 <= i < p.len() ==> p[i] == #[trigger] s[i]
}

/// True when `a` comes strictly before `b` in lexicographic byte order.
pub open spec fn lex_lt(a: Seq<u8>, b: Seq<u8>) -> bool
    decreases a.len(),
{
    if b.len() == 0 {
        false
    } else if a.len() == 0 {
        true
    } else if a[0] != b[0] {
        a[0] < b[0]
    } else {
        lex_lt(a.drop_first(), b.drop_first())
    }
}

pub fn bytes_eq(a: &[u8], b: &[u8]) -> (r: bool)
    ensures
        r <==> a@ == b@,
{
    if a.len() != b.len() {
        proof {
            assert(a@.len() != b@.len());
        }
        return false;
    }
    let n = a.len();
    let mut i: usize = 0;
    while i < n
        invariant
            0 <= i <= n,
            n == a@.len() == b@.len(),
            forall|j: int| 0 <= j < i ==> a@[j] == b@[j],
        decreases n - i,
    {
        if a[i] != b[i] {
            return false;
        }
        i = i + 1;
    }
    proof {
        assert(a@ =~= b@);
    }
    true
}

pub fn bytes_lex_lt(a: &[u8], b: &[u8]) -> (r: bool)
    ensures
        r <==> lex_lt(a@, b@),
{
    let mut i: usize = 0;
    proof {
        assert(a@.skip(0) =~= a@);
        assert(b@.skip(0) =~= b@);
    }
    loop
        invariant
            0 <= i <= a@.len(),
            i <= b@.len(),
            forall|j: int| 0 <= j < i ==> a@[j] == b@[j],
            lex_lt(a@, b@) == lex_lt(a@.skip(i as int), b@.skip(i as int)),
        decreases a@.len() - i,
    {
        if i >= b.len() {
            proof {
                assert(b@.skip(i as int).len() == 0);
            }
            return false;
        }
        if i >= a.len() {
            proof {
                assert(a@.skip(i as int).len() == 0);
                assert(b@.skip(i as int).len() > 0);
            }
            return true;
        }
        if a[i] != b[i] {
            proof {
                assert(a@.skip(i as int)[0] == a@[i as int]);
                assert(b@.skip(i as int)[0] == b@[i as int]);
            }
            return a[i] < b[i];
        }
        proof {
            assert(a@.skip(i as int)[0] == a@[i as int]);
            assert(b@.skip(i as int)[0] == b@[i as int]);
            assert(a@.skip(i as int).drop_first() =~= a@.skip(i + 1));
            assert(b@.skip(i as int).drop_first() =~= b@.skip(i + 1));
            assert(lex_lt(a@.skip(i as int), b@.skip(i as int)) == lex_lt(
                a@.skip(i + 1),
                b@.skip(i + 1),
            ));
        }
        i = i + 1;
    }
}

/// True for the ASCII whitespace bytes: tab through carriage return, and
/// the space.
pub open spec fn is_ascii_ws(b: u8) -> bool {
    b == 32 || (9 <= b && b <= 13)
}

pub open spec fn trim_start_ws(s: Seq<u8>) -> Seq<u8>
    decreases s.len(),
{
    if s.len() > 0 && is_ascii_ws(s[0]) {
        trim_start_ws(s.drop_first())
    } else {
        s
    }
}

pub open spec fn trim_end_ws(s: Seq<u8>) -> Seq<u8>
    decreases s.len(),
{
    if s.len() > 0 && is_ascii_ws(s.last()) {
        trim_end_ws(s.drop_last())
    } else {
        s
    }
}

/// `s` without its leading and trailing ASCII whitespace.
pub open spec fn trim_ws(s: Seq<u8>) -> Seq<u8> {
    trim_end_ws(trim_start_ws(s))
}

proof fn lemma_trim_start_at(s: Seq<u8>, a: int)
    requires
        0 <= a <= s.len(),
        forall|j: int| 0 <= j < a ==> is_ascii_ws(#[trigger] s[j]),
        a < s.len() ==> !is_ascii_ws(s[a]),
    ensures
        trim_start_ws(s) == s.skip(a),
    decreases a,
{
    if a == 0 {
        assert(s.skip(0) =~= s);
    } else {
        let t = s.drop_first();
        assert(t =~= s.skip(1));
        lemma_trim_start_at(t, a - 1);
        assert(t.skip(a - 1) =~= s.skip(a));
    }
}

proof fn lemma_trim_end_at(s: Seq<u8>, b: int)
    requires
        0 <= b <= s.len(),
        forall|j: int| b <= j < s.len() ==> is_ascii_ws(#[trigger] s[j]),
        b > 0 ==> !is_ascii_ws(s[b - 1]),
    ensures
        trim_end_ws(s) == s.take(b),
    decreases s.len(),
{
    if b == s.len() {
        assert(s.take(b) =~= s);
    } else {
        let t = s.drop_last();
        assert(t =~= s.take(s.len() - 1));
        lemma_trim_end_at(t, b);
        assert(t.take(b) =~= s.take(b));
    }
}

/// One ASCII whitespace byte, decided.
fn is_ws(b: u8) -> (r: bool)
    ensures
        r == is_ascii_ws(b),
{
    b == 32 || (9 <= b && b <= 13)
}

/// `s` without its leading and trailing ASCII whitespace.
pub fn trim_bytes<'a>(s: &'a [u8]) -> (r: &'a [u8])
    ensures
        r@ == trim_ws(s@),
{
    let n = s.len();
    let mut a: usize = 0;
    while a < n && is_ws(s[a])
        invariant
            0 <= a <= n == s@.len(),
            forall|j: int| 0 <= j < a ==> is_ascii_ws(#[trigger] s@[j]),
        decreases n - a,
    {
        a = a + 1;
    }
    proof {
        lemma_trim_start_at(s@, a as int);
    }
    let mut b: usize = n;
    while b > a && is_ws(s[b - 1])
        invariant
            a <= b <= n == s@.len(),
            forall|j: int| b <= j < n ==> is_ascii_ws(#[trigger] s@[j]),
        decreases b,
    {
        b = b - 1;
    }
    let ghost t = s@.skip(a as int);
    proof {
        assert(forall|j: int| b - a <= j < t.len() ==> is_ascii_ws(#[trigger] t[j]));
        if b > a {
            assert(t[b - a - 1] == s@[b - 1]);
        }
        lemma_trim_end_at(t, b - a);
        assert(t.take(b - a) =~= s@.subrange(a as int, b as int));
    }
    vstd::slice::slice_subrange(s, a, b)
}

/// Index of the first `sep` at or after `i`, or -1 where there is none.
pub open spec fn find_byte(s: Seq<u8>, sep: u8, i: int) -> int
    decreases s.len() - i,
{
    if i < 0 || i >= s.len() {
        -1
    } else if s[i] == sep {
        i
    } else {
        find_byte(s, sep, i + 1)
    }
}

/// `s` cut at every `sep`: the pieces between separators, in order, with
/// an empty piece where two separators touch. A string without `sep` is
/// one piece, so the result is never empty.
pub open spec fn split_bytes(s: Seq<u8>, sep: u8) -> Seq<Seq<u8>>
    decreases s.len(),
{
    let i = find_byte(s, sep, 0);
    if 0 <= i < s.len() {
        seq![s.take(i)] + split_bytes(s.skip(i + 1), sep)
    } else {
        seq![s]
    }
}

proof fn lemma_find_byte_from(s: Seq<u8>, sep: u8, i: int, j: int)
    requires
        0 <= i <= j <= s.len(),
        forall|k: int| i <= k < j ==> s[k] != sep,
    ensures
        find_byte(s, sep, i) == find_byte(s, sep, j),
    decreases j - i,
{
    if i < j {
        lemma_find_byte_from(s, sep, i + 1, j);
    }
}

/// Where the first separator at or after the cut is known, one piece of
/// the split comes off the front.
proof fn lemma_split_step(s: Seq<u8>, sep: u8, k: int)
    requires
        0 <= k < s.len(),
        s[k] == sep,
        forall|j: int| 0 <= j < k ==> s[j] != sep,
    ensures
        split_bytes(s, sep) == seq![s.take(k)] + split_bytes(s.skip(k + 1), sep),
{
    lemma_find_byte_from(s, sep, 0, k);
}

proof fn lemma_split_whole(s: Seq<u8>, sep: u8)
    requires
        forall|j: int| 0 <= j < s.len() ==> s[j] != sep,
    ensures
        split_bytes(s, sep) == seq![s],
{
    lemma_find_byte_from(s, sep, 0, s.len() as int);
}

/// The views of a vector of byte slices.
pub open spec fn slice_views(s: Seq<&[u8]>) -> Seq<Seq<u8>> {
    s.map_values(|p: &[u8]| p@)
}

/// Cuts `s` at every `sep`, returning the pieces in order.
pub fn split_on<'a>(s: &'a [u8], sep: u8) -> (r: Vec<&'a [u8]>)
    ensures
        slice_views(r@) == split_bytes(s@, sep),
        r@.len() >= 1,
{
    let n = s.len();
    let mut out: Vec<&'a [u8]> = Vec::new();
    let mut start: usize = 0;
    let mut i: usize = 0;
    proof {
        assert(s@.skip(0) =~= s@);
        assert(slice_views(out@) =~= Seq::<Seq<u8>>::empty());
    }
    while i < n
        invariant
            0 <= start <= i <= n == s@.len(),
            forall|j: int| start <= j < i ==> s@[j] != sep,
            split_bytes(s@, sep) == slice_views(out@) + split_bytes(s@.skip(start as int), sep),
        decreases n - i,
    {
        if s[i] == sep {
            let piece = vstd::slice::slice_subrange(s, start, i);
            proof {
                let t = s@.skip(start as int);
                assert(forall|j: int| 0 <= j < i - start ==> t[j] == s@[j + start] && t[j] != sep);
                assert(t[i - start] == sep);
                lemma_split_step(t, sep, i - start);
                assert(t.take(i - start) =~= piece@);
                assert(t.skip(i - start + 1) =~= s@.skip(i + 1));
                assert(slice_views(out@.push(piece)) =~= slice_views(out@) + seq![piece@]);
                assert(slice_views(out@) + (seq![piece@] + split_bytes(s@.skip(i + 1), sep)) =~= (
                slice_views(out@) + seq![piece@]) + split_bytes(s@.skip(i + 1), sep));
            }
            out.push(piece);
            start = i + 1;
        }
        i = i + 1;
    }
    let piece = vstd::slice::slice_subrange(s, start, n);
    proof {
        let t = s@.skip(start as int);
        assert(forall|j: int| 0 <= j < t.len() ==> t[j] == s@[j + start] && t[j] != sep);
        lemma_split_whole(t, sep);
        assert(t =~= piece@);
        assert(slice_views(out@.push(piece)) =~= slice_views(out@) + seq![piece@]);
    }
    out.push(piece);
    out
}

/// Lexicographic order is total on byte strings: two strings neither of
/// which precedes the other are equal.
pub proof fn lemma_lex_total(a: Seq<u8>, b: Seq<u8>)
    requires
        !lex_lt(a, b),
        !lex_lt(b, a),
    ensures
        a == b,
    decreases a.len(),
{
    if a.len() == 0 && b.len() == 0 {
        assert(a =~= b);
    } else if a.len() > 0 && b.len() > 0 {
        assert(a[0] == b[0]);
        lemma_lex_total(a.drop_first(), b.drop_first());
        assert(a.drop_first().len() == b.drop_first().len());
        assert(a.len() == b.len());
        assert forall|i: int| 0 <= i < a.len() implies a[i] == b[i] by {
            if i > 0 {
                assert(a.drop_first()[i - 1] == a[i]);
                assert(b.drop_first()[i - 1] == b[i]);
            }
        }
        assert(a =~= b);
    }
}

/// Lexicographic order never holds in both directions at once.
pub proof fn lemma_lex_asymmetric(a: Seq<u8>, b: Seq<u8>)
    requires
        lex_lt(a, b),
    ensures
        !lex_lt(b, a),
    decreases a.len(),
{
    if a.len() > 0 && b.len() > 0 && a[0] == b[0] {
        lemma_lex_asymmetric(a.drop_first(), b.drop_first());
    }
}

} // verus!

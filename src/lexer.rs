use vstd::prelude::*;
use vstd::string::StringSliceAdditionalSpecFns;
use vstd::utf8::{
    decode_utf8, encode_utf8, encode_utf8_decode_utf8, encode_utf8_first_scalar,
    encode_utf8_valid_utf8,
    is_char_boundary, pop_first_scalar,
};

verus! {

/// Unicode's White_Space property: the code points that the Unicode
/// Character Database lists under it in PropList.txt.
pub open spec fn white_space(c: char) -> bool {
    let v = c as u32;
    ||| 0x09 <= v <= 0x0d
    ||| v == 0x20
    ||| v == 0x85
    ||| v == 0xa0
    ||| v == 0x1680
    ||| 0x2000 <= v <= 0x200a
    ||| v == 0x2028
    ||| v == 0x2029
    ||| v == 0x202f
    ||| v == 0x205f
    ||| v == 0x3000
}

pub open spec fn is_paren(c: char) -> bool {
    c == '(' || c == ')'
}

/// A character that can stand inside an atom.
pub open spec fn atom_char(c: char) -> bool {
    !white_space(c) && !is_paren(c)
}

/// Relies on char::is_whitespace: true exactly for the characters that
/// have Unicode's White_Space property.
#[verifier::external_body]
fn is_white_space(c: char) -> (r: bool)
    ensures
        r == white_space(c),
{
    c.is_whitespace()
}

/// The length of the longest prefix of `s` made of atom characters.
pub open spec fn atom_len(s: Seq<char>) -> nat
    decreases s.len(),
{
    if s.len() > 0 && atom_char(s[0]) {
        1 + atom_len(s.drop_first())
    } else {
        0
    }
}

/// The tokens of a text: each parenthesis on its own, each maximal run of
/// atom characters, and nothing for whitespace.
pub open spec fn tokens_of(s: Seq<char>) -> Seq<Seq<char>>
    decreases s.len(),
    via tokens_of_decreases
{
    if s.len() == 0 {
        Seq::empty()
    } else if is_paren(s[0]) {
        seq![seq![s[0]]] + tokens_of(s.drop_first())
    } else if white_space(s[0]) {
        tokens_of(s.drop_first())
    } else {
        let n = atom_len(s);
        seq![s.take(n as int)] + tokens_of(s.skip(n as int))
    }
}

/// `atom_len` counts a run of atom characters, at least one where the text
/// starts with one.
pub(crate) proof fn lemma_atom_run(s: Seq<char>)
    ensures
        atom_len(s) <= s.len(),
        s.len() > 0 && atom_char(s[0]) ==> atom_len(s) >= 1,
        forall|j: int| 0 <= j < atom_len(s) ==> atom_char(#[trigger] s[j]),
        atom_len(s) < s.len() ==> !atom_char(s[atom_len(s) as int]),
    decreases s.len(),
{
    if s.len() > 0 && atom_char(s[0]) {
        let t = s.drop_first();
        lemma_atom_run(t);
        if atom_len(s) < s.len() {
            assert(s[atom_len(s) as int] == t[atom_len(t) as int]);
        }
        assert forall|j: int| 0 <= j < atom_len(s) implies atom_char(#[trigger] s[j]) by {
            if j > 0 {
                assert(s[j] == t[j - 1]);
            }
        }
    }
}

#[via_fn]
proof fn tokens_of_decreases(s: Seq<char>) {
    lemma_atom_run(s);
}

/// A run of `m` atom characters at the start makes `atom_len` at least `m`,
/// and exactly `m` where the run ends there.
pub(crate) proof fn lemma_atom_len_ge(s: Seq<char>, m: int)
    requires
        0 <= m <= s.len(),
        forall|j: int| 0 <= j < m ==> atom_char(#[trigger] s[j]),
    ensures
        atom_len(s) >= m,
        m == s.len() || !atom_char(s[m]) ==> atom_len(s) == m,
    decreases m,
{
    if m > 0 {
        let t = s.drop_first();
        assert forall|j: int| 0 <= j < m - 1 implies atom_char(#[trigger] t[j]) by {
            assert(t[j] == s[j + 1]);
        }
        lemma_atom_len_ge(t, m - 1);
        if m == s.len() || !atom_char(s[m]) {
            if m < s.len() {
                assert(t[m - 1] == s[m]);
            }
        }
    }
}

/// The tokens of `s` from position `start`, where the run `start..i` holds
/// atom characters and `i` is the end of `s` or a character that ends it.
proof fn lemma_tokens_at_run_end(s: Seq<char>, start: int, i: int)
    requires
        0 <= start < i <= s.len(),
        forall|j: int| start <= j < i ==> atom_char(#[trigger] s[j]),
        i == s.len() || !atom_char(s[i]),
    ensures
        tokens_of(s.subrange(start, s.len() as int)) == seq![s.subrange(start, i)] + tokens_of(
            s.subrange(i, s.len() as int),
        ),
{
    let t = s.subrange(start, s.len() as int);
    assert forall|j: int| 0 <= j < i - start implies atom_char(#[trigger] t[j]) by {
        assert(t[j] == s[start + j]);
    }
    if i < s.len() {
        assert(t[i - start] == s[i]);
    }
    lemma_atom_len_ge(t, i - start);
    assert(t.take(i - start) =~= s.subrange(start, i));
    assert(t.skip(i - start) =~= s.subrange(i, s.len() as int));
}

/// Relies on char::len_utf8: the number of bytes of the character's UTF-8
/// encoding.
#[verifier::external_body]
fn utf8_len(c: char) -> (r: usize)
    ensures
        r == encode_utf8(seq![c]).len(),
{
    c.len_utf8()
}

/// UTF-8 encoding distributes over concatenation, and the first part's
/// bytes end on a character boundary.
proof fn lemma_encode_concat(a: Seq<char>, b: Seq<char>)
    ensures
        encode_utf8(a + b) == encode_utf8(a) + encode_utf8(b),
        is_char_boundary(encode_utf8(a + b), encode_utf8(a).len() as int),
    decreases a.len(),
{
    broadcast use encode_utf8_valid_utf8;

    if a.len() == 0 {
        assert(a + b =~= b);
    } else {
        let ab = a + b;
        assert(ab.drop_first() =~= a.drop_first() + b);
        assert(ab[0] == a[0]);
        lemma_encode_concat(a.drop_first(), b);
        assert(encode_utf8(a + b) =~= encode_utf8(a) + encode_utf8(b));
        encode_utf8_first_scalar(ab);
        let bytes = encode_utf8(ab);
        assert(pop_first_scalar(bytes) =~= encode_utf8(ab.drop_first()));
    }
}

/// The characters `from..to` of `s`, cut at their byte offsets `from_b` and
/// `to_b`.
fn char_range<'a>(
    s: &'a str,
    from_b: usize,
    to_b: usize,
    Ghost(from): Ghost<int>,
    Ghost(to): Ghost<int>,
) -> (r: &'a str)
    requires
        0 <= from <= to <= s@.len(),
        from_b == encode_utf8(s@.take(from)).len(),
        to_b == encode_utf8(s@.take(to)).len(),
    ensures
        r@ == s@.subrange(from, to),
{
    broadcast use encode_utf8_decode_utf8;

    proof {
        assert(s@.take(to) + s@.skip(to) =~= s@);
        lemma_encode_concat(s@.take(to), s@.skip(to));
        assert(s@.take(from) + s@.subrange(from, to) =~= s@.take(to));
        lemma_encode_concat(s@.take(from), s@.subrange(from, to));
    }
    let (head, _) = s.split_at(to_b);
    assert(head.spec_bytes() =~= encode_utf8(s@.take(to)));
    let (_, r) = head.split_at(from_b);
    assert(r.spec_bytes() =~= encode_utf8(s@.subrange(from, to)));
    assert(decode_utf8(r.spec_bytes()) == r@);
    r
}

/// Splits `s` into its tokens: each parenthesis on its own, each maximal run
/// of characters that are neither whitespace nor a parenthesis, and nothing
/// for whitespace. The tokens are slices of `s`, found in one pass.
pub fn tokeniser(s: &str) -> (r: Vec<&str>)
    ensures
        r@.map_values(|t: &str| t@) == tokens_of(s@),
{
    broadcast use vstd::string::group_string_axioms;

    let mut tokens: Vec<&str> = Vec::new();
    let mut start_b: usize = 0;
    let mut b: usize = 0;
    let ghost mut start: int = 0;
    let mut pending = false;
    let total = s.as_bytes().len();
    assert(s@.subrange(0, s@.len() as int) =~= s@);
    assert(s@.take(0) =~= Seq::<char>::empty());
    for c in it: s.chars()
        invariant
            it.seq() == s@,
            0 <= start <= it.index() <= s@.len(),
            pending == (start < it.index()),
            forall|j: int| start <= j < it.index() ==> atom_char(#[trigger] s@[j]),
            tokens@.map_values(|t: &str| t@) + tokens_of(s@.subrange(start, s@.len() as int))
                == tokens_of(s@),
            start_b == encode_utf8(s@.take(start)).len(),
            b == encode_utf8(s@.take(it.index())).len(),
            total == encode_utf8(s@).len(),
    {
        let ghost i = it.index();
        let ghost n = s@.len() as int;
        let w = utf8_len(c);
        proof {
            assert(s@.take(i + 1) =~= s@.take(i) + seq![c]);
            lemma_encode_concat(s@.take(i), seq![c]);
            assert(s@.take(i + 1) + s@.skip(i + 1) =~= s@);
            lemma_encode_concat(s@.take(i + 1), s@.skip(i + 1));
        }
        let ws = is_white_space(c);
        if c == '(' || c == ')' || ws {
            let ghost old_tokens = tokens@.map_values(|t: &str| t@);
            let ghost rest = s@.subrange(i, n);
            if pending {
                proof {
                    lemma_tokens_at_run_end(s@, start, i);
                }
                tokens.push(char_range(s, start_b, b, Ghost(start), Ghost(i)));
                assert(tokens@.map_values(|t: &str| t@) =~= old_tokens.push(
                    s@.subrange(start, i),
                ));
            }
            assert(rest[0] == c);
            assert(rest.drop_first() =~= s@.subrange(i + 1, n));
            if !ws {
                let ghost before = tokens@.map_values(|t: &str| t@);
                tokens.push(char_range(s, b, b + w, Ghost(i), Ghost(i + 1)));
                assert(s@.subrange(i, i + 1) =~= seq![c]);
                assert(tokens@.map_values(|t: &str| t@) =~= before.push(seq![c]));
            }
            start_b = b + w;
            pending = false;
            proof {
                start = i + 1;
            }
        } else {
            pending = true;
        }
        b = b + w;
    }
    let ghost n = s@.len() as int;
    if pending {
        proof {
            lemma_tokens_at_run_end(s@, start, n);
            assert(s@.take(n) =~= s@);
        }
        let ghost before = tokens@.map_values(|t: &str| t@);
        tokens.push(char_range(s, start_b, b, Ghost(start), Ghost(n)));
        assert(tokens@.map_values(|t: &str| t@) =~= before.push(s@.subrange(start, n)));
    }
    assert(s@.subrange(n, n) =~= Seq::<char>::empty());
    tokens
}

} // verus!

//! The lexer: source text to tokens.

use vstd::prelude::*;
use vstd::string::*;

verus! {

/// Whether `c` separates words: the characters with Unicode's White_Space
/// property.
pub open spec fn is_space(c: char) -> bool {
    let n = c as u32;
    ||| 0x09 <= n <= 0x0D
    ||| n == 0x20
    ||| n == 0x85
    ||| n == 0xA0
    ||| n == 0x1680
    ||| 0x2000 <= n <= 0x200A
    ||| n == 0x2028
    ||| n == 0x2029
    ||| n == 0x202F
    ||| n == 0x205F
    ||| n == 0x3000
}

/// Whether `c` is one of the two parentheses.
pub open spec fn is_paren(c: char) -> bool {
    c == '(' || c == ')'
}

/// The text with a space put on either side of each parenthesis.
pub open spec fn pad(s: Seq<char>) -> Seq<char>
    decreases s.len(),
{
    if s.len() == 0 {
        Seq::empty()
    } else if is_paren(s[0]) {
        seq![' ', s[0], ' '] + pad(s.drop_first())
    } else {
        seq![s[0]] + pad(s.drop_first())
    }
}

/// The piece `cur`, if it has any character.
pub open spec fn piece(cur: Seq<char>) -> Seq<Seq<char>> {
    if cur.len() > 0 {
        seq![cur]
    } else {
        Seq::empty()
    }
}

/// The pieces that runs of white space split `t` into, the empty ones left
/// out, where the piece `cur` is still open before `t`.
pub open spec fn split(t: Seq<char>, cur: Seq<char>) -> Seq<Seq<char>>
    decreases t.len(),
{
    if t.len() == 0 {
        piece(cur)
    } else if is_space(t[0]) {
        piece(cur) + split(t.drop_first(), Seq::empty())
    } else {
        split(t.drop_first(), cur.push(t[0]))
    }
}

/// The tokens of a source text: what splitting it at white space gives, once
/// a space stands on either side of each parenthesis. So each parenthesis is a
/// token by itself, and each longest run of other characters between white
/// space and parentheses is one.
pub open spec fn lex(s: Seq<char>) -> Seq<Seq<char>> {
    split(pad(s), Seq::empty())
}

/// The texts of a sequence of strings.
pub open spec fn texts(v: Seq<String>) -> Seq<Seq<char>> {
    Seq::new(v.len(), |k: int| v[k]@)
}

/// A token is well formed when it is not empty, holds no white space, and
/// holds a parenthesis only if it is that parenthesis alone.
pub open spec fn well_formed(t: Seq<char>) -> bool {
    &&& t.len() > 0
    &&& forall|k: int| 0 <= k < t.len() ==> !is_space(#[trigger] t[k])
    &&& (forall|k: int| 0 <= k < t.len() ==> !is_paren(#[trigger] t[k])) || (t.len() == 1
        && is_paren(t[0]))
}

/// The word that runs from `start` up to `end`, if it has any character.
spec fn word(s: Seq<char>, start: int, end: int) -> Seq<Seq<char>> {
    if start < end {
        seq![s.subrange(start, end)]
    } else {
        Seq::empty()
    }
}

/// The tokens of `s` from position `i` on, where a word that began at `start`
/// is still open (`start == i` when none is).
spec fn scan(s: Seq<char>, start: int, i: int) -> Seq<Seq<char>>
    decreases s.len() - i,
{
    if i >= s.len() {
        word(s, start, i)
    } else if is_space(s[i]) {
        word(s, start, i) + scan(s, i + 1, i + 1)
    } else if is_paren(s[i]) {
        word(s, start, i) + seq![seq![s[i]]] + scan(s, i + 1, i + 1)
    } else {
        scan(s, start, i + 1)
    }
}

proof fn lemma_scan_well_formed(s: Seq<char>, start: int, i: int)
    requires
        0 <= start <= i <= s.len(),
        forall|k: int| start <= k < i ==> !is_space(#[trigger] s[k]) && !is_paren(s[k]),
    ensures
        forall|j: int| 0 <= j < scan(s, start, i).len() ==> well_formed(#[trigger] scan(s, start, i)[j]),
    decreases s.len() - i,
{
    let w = word(s, start, i);
    let all = scan(s, start, i);
    assert forall|j: int| 0 <= j < w.len() implies well_formed(#[trigger] w[j]) by {
        let t = s.subrange(start, i);
        assert(forall|k: int| 0 <= k < t.len() ==> t[k] == s[start + k]);
    }
    if i >= s.len() {
        assert(all == w);
    } else if is_space(s[i]) {
        lemma_scan_well_formed(s, i + 1, i + 1);
        let rest = scan(s, i + 1, i + 1);
        assert forall|j: int| 0 <= j < all.len() implies well_formed(#[trigger] all[j]) by {
            if j >= w.len() {
                assert(all[j] == rest[j - w.len()]);
            } else {
                assert(all[j] == w[j]);
            }
        }
    } else if is_paren(s[i]) {
        lemma_scan_well_formed(s, i + 1, i + 1);
        let rest = scan(s, i + 1, i + 1);
        let one = seq![s[i]];
        assert(one[0] == s[i]);
        assert(well_formed(one));
        assert forall|j: int| 0 <= j < all.len() implies well_formed(#[trigger] all[j]) by {
            if j > w.len() {
                assert(all[j] == rest[j - w.len() - 1]);
            } else if j == w.len() {
                assert(all[j] == one);
            } else {
                assert(all[j] == w[j]);
            }
        }
    } else {
        lemma_scan_well_formed(s, start, i + 1);
        assert(all == scan(s, start, i + 1));
    }
}

proof fn lemma_scan_is_split(s: Seq<char>, start: int, i: int)
    requires
        0 <= start <= i <= s.len(),
    ensures
        scan(s, start, i) == split(pad(s.skip(i)), s.subrange(start, i)),
    decreases s.len() - i,
{
    let rest = s.skip(i);
    let cur = s.subrange(start, i);
    let none = Seq::<char>::empty();
    assert(piece(cur) == word(s, start, i));
    if i < s.len() {
        let c = s[i];
        let tail = pad(s.skip(i + 1));
        assert(rest[0] == c);
        assert(rest.drop_first() =~= s.skip(i + 1));
        assert(s.subrange(i + 1, i + 1) =~= none);
        if is_space(c) {
            let t = seq![c] + tail;
            assert(t.drop_first() =~= tail);
            lemma_scan_is_split(s, i + 1, i + 1);
        } else if is_paren(c) {
            let t = seq![' ', c, ' '] + tail;
            let t1 = seq![c, ' '] + tail;
            let t2 = seq![' '] + tail;
            assert(is_space(' '));
            assert(t[0] == ' ' && t.drop_first() =~= t1);
            assert(t1[0] == c && t1.drop_first() =~= t2);
            assert(t2[0] == ' ' && t2.drop_first() =~= tail);
            assert(none.push(c) =~= seq![c]);
            assert(split(t2, seq![c]) == piece(seq![c]) + split(tail, none));
            assert(split(t1, none) == split(t2, seq![c]));
            assert(split(t, cur) == piece(cur) + split(t1, none));
            lemma_scan_is_split(s, i + 1, i + 1);
            assert(scan(s, start, i) =~= split(t, cur));
        } else {
            let t = seq![c] + tail;
            assert(t.drop_first() =~= tail);
            assert(cur.push(c) =~= s.subrange(start, i + 1));
            lemma_scan_is_split(s, start, i + 1);
        }
    }
}

proof fn lemma_scan_is_lex(s: Seq<char>)
    ensures
        scan(s, 0, 0) == lex(s),
{
    lemma_scan_is_split(s, 0, 0);
    assert(s.skip(0) =~= s);
    assert(s.subrange(0, 0) =~= Seq::<char>::empty());
}

/// Every token of every source text is well formed: each parenthesis is a
/// token of its own, and no token holds white space.
pub proof fn lemma_tokens_well_formed(s: Seq<char>)
    ensures
        forall|j: int| 0 <= j < lex(s).len() ==> well_formed(#[trigger] lex(s)[j]),
{
    lemma_scan_well_formed(s, 0, 0);
    lemma_scan_is_lex(s);
}

/// Whether `c` is white space.
fn is_whitespace(c: char) -> (r: bool)
    ensures
        r == is_space(c),
{
    let n: u32 = c as u32;
    (0x09 <= n && n <= 0x0D) || n == 0x20 || n == 0x85 || n == 0xA0 || n == 0x1680 || (0x2000 <= n
        && n <= 0x200A) || n == 0x2028 || n == 0x2029 || n == 0x202F || n == 0x205F || n == 0x3000
}

/// Splits a source text into its tokens.
pub fn tokenize(source_code: String) -> (tokens: Vec<String>)
    ensures
        texts(tokens@) == lex(source_code@),
        forall|j: int| 0 <= j < tokens@.len() ==> well_formed(#[trigger] tokens@[j]@),
{
    let s = source_code.as_str();
    let n = s.unicode_len();
    let mut tokens: Vec<String> = Vec::new();
    let mut start: usize = 0;
    let mut i: usize = 0;
    while i < n
        invariant
            s@ == source_code@,
            n == s@.len(),
            start <= i <= n,
            texts(tokens@) + scan(s@, start as int, i as int) == scan(s@, 0, 0),
        decreases n - i,
    {
        let c = s.get_char(i);
        let space = is_whitespace(c);
        let paren = c == '(' || c == ')';
        if space || paren {
            let ghost before = texts(tokens@);
            if start < i {
                tokens.push(String::from_str(s.substring_char(start, i)));
            }
            assert(texts(tokens@) =~= before + word(s@, start as int, i as int));
            if paren {
                let ghost mid = texts(tokens@);
                tokens.push(String::from_str(s.substring_char(i, i + 1)));
                assert(s@.subrange(i as int, i + 1) =~= seq![s@[i as int]]);
                assert(texts(tokens@) =~= mid + seq![seq![s@[i as int]]]);
            }
            assert(texts(tokens@) + scan(s@, i + 1, i + 1) =~= before + scan(
                s@,
                start as int,
                i as int,
            ));
            start = i + 1;
        }
        i += 1;
    }
    let ghost before = texts(tokens@);
    if start < n {
        tokens.push(String::from_str(s.substring_char(start, n)));
    }
    proof {
        assert(texts(tokens@) =~= before + word(s@, start as int, n as int));
        lemma_scan_is_lex(s@);
        lemma_tokens_well_formed(s@);
        assert forall|j: int| 0 <= j < tokens@.len() implies well_formed(
            #[trigger] tokens@[j]@,
        ) by {
            assert(tokens@[j]@ == lex(s@)[j]);
        }
    }
    tokens
}

} // verus!

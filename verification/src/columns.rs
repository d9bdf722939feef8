//! Two columns of whole numbers, read from lines of text that hold two
//! numbers each, separated by whitespace.

use vstd::prelude::*;
use vstd::string::*;
use crate::numeric::{parse_i32, spec_parse_i32};

verus! {

/// A whitespace character as `char::is_whitespace` tells it: one with the
/// Unicode `White_Space` property.
pub open spec fn is_whitespace(c: char) -> bool {
    ||| '\u{9}' <= c && c <= '\u{d}'
    ||| c == ' '
    ||| c == '\u{85}'
    ||| c == '\u{a0}'
    ||| c == '\u{1680}'
    ||| '\u{2000}' <= c && c <= '\u{200a}'
    ||| c == '\u{2028}'
    ||| c == '\u{2029}'
    ||| c == '\u{202f}'
    ||| c == '\u{205f}'
    ||| c == '\u{3000}'
}

/// The words of `s` after the word `cur` that has begun: the maximal runs of
/// characters that are not whitespace, in order.
pub open spec fn words_after(s: Seq<char>, cur: Seq<char>) -> Seq<Seq<char>>
    decreases s.len(),
{
    if s.len() == 0 {
        if cur.len() > 0 {
            seq![cur]
        } else {
            Seq::empty()
        }
    } else if is_whitespace(s[0]) {
        (if cur.len() > 0 {
            seq![cur]
        } else {
            Seq::empty()
        }) + words_after(s.drop_first(), Seq::empty())
    } else {
        words_after(s.drop_first(), cur.push(s[0]))
    }
}

/// The words of `s`, as `str::split_whitespace` gives them.
pub open spec fn words(s: Seq<char>) -> Seq<Seq<char>> {
    words_after(s, Seq::empty())
}

proof fn lemma_words_after_split(a: Seq<char>, w: char, b: Seq<char>, cur: Seq<char>)
    requires
        is_whitespace(w),
    ensures
        words_after(a + seq![w] + b, cur) == words_after(a, cur) + words(b),
    decreases a.len(),
{
    let t = a + seq![w] + b;
    let opt: Seq<Seq<char>> = if cur.len() > 0 {
        seq![cur]
    } else {
        Seq::empty()
    };
    if a.len() == 0 {
        assert(t =~= seq![w] + b);
        assert(t[0] == w);
        assert(t.drop_first() =~= b);
    } else {
        assert(t[0] == a[0]);
        assert(t.drop_first() =~= a.drop_first() + seq![w] + b);
        if is_whitespace(a[0]) {
            lemma_words_after_split(a.drop_first(), w, b, Seq::empty());
            assert(opt + (words_after(a.drop_first(), Seq::empty()) + words(b)) =~= (opt
                + words_after(a.drop_first(), Seq::empty())) + words(b));
        } else {
            lemma_words_after_split(a.drop_first(), w, b, cur.push(a[0]));
        }
    }
}

/// Whitespace parts words: a text with a whitespace character in it has
/// the words before that character, then the words after it.
pub proof fn lemma_words_split(a: Seq<char>, w: char, b: Seq<char>)
    requires
        is_whitespace(w),
    ensures
        words(a + seq![w] + b) == words(a) + words(b),
{
    lemma_words_after_split(a, w, b, Seq::empty());
}

proof fn lemma_words_after_single(a: Seq<char>, cur: Seq<char>)
    requires
        cur.len() + a.len() > 0,
        forall|k: int| 0 <= k < a.len() ==> !is_whitespace(#[trigger] a[k]),
    ensures
        words_after(a, cur) == seq![cur + a],
    decreases a.len(),
{
    if a.len() == 0 {
        assert(cur + a =~= cur);
    } else {
        assert(!is_whitespace(a[0]));
        assert forall|k: int| 0 <= k < a.drop_first().len() implies !is_whitespace(
            #[trigger] a.drop_first()[k],
        ) by {
            assert(a.drop_first()[k] == a[k + 1]);
        }
        lemma_words_after_single(a.drop_first(), cur.push(a[0]));
        assert(cur.push(a[0]) + a.drop_first() =~= cur + a);
    }
}

/// A nonempty run of characters that are not whitespace is one word, and a
/// text without characters has none.
pub proof fn lemma_words_single(a: Seq<char>)
    requires
        forall|k: int| 0 <= k < a.len() ==> !is_whitespace(#[trigger] a[k]),
    ensures
        a.len() > 0 ==> words(a) == seq![a],
        words(Seq::empty()) == Seq::<Seq<char>>::empty(),
{
    if a.len() > 0 {
        lemma_words_after_single(a, Seq::empty());
        assert(Seq::<char>::empty() + a =~= a);
    }
}

/// A line that holds two words is one whose words both read as `i32`.
pub open spec fn line_parses(line: Seq<char>) -> bool {
    words(line).len() == 2 ==> spec_parse_i32(words(line)[0]) is Some && spec_parse_i32(
        words(line)[1],
    ) is Some
}

/// Word `c` of every line that holds exactly two words, read as an `i32`.
pub open spec fn column(lines: Seq<Seq<char>>, c: int) -> Seq<i32>
    decreases lines.len(),
{
    if lines.len() == 0 {
        Seq::empty()
    } else {
        column(lines.drop_last(), c) + if words(lines.last()).len() == 2 {
            seq![spec_parse_i32(words(lines.last())[c]).unwrap()]
        } else {
            Seq::empty()
        }
    }
}

/// How many lines hold exactly two words.
pub open spec fn two_word_lines(lines: Seq<Seq<char>>) -> nat
    decreases lines.len(),
{
    if lines.len() == 0 {
        0
    } else {
        two_word_lines(lines.drop_last()) + if words(lines.last()).len() == 2 {
            1nat
        } else {
            0nat
        }
    }
}

/// Every line with exactly two words adds one entry to each column, its
/// first word read as an `i32` to the first and its second to the second;
/// every other line adds nothing.
pub proof fn lemma_column_push(lines: Seq<Seq<char>>, line: Seq<char>, c: int)
    ensures
        words(line).len() == 2 ==> column(lines.push(line), c) == column(lines, c).push(
            spec_parse_i32(words(line)[c]).unwrap(),
        ),
        words(line).len() != 2 ==> column(lines.push(line), c) == column(lines, c),
{
    assert(lines.push(line).drop_last() =~= lines);
    assert(lines.push(line).last() == line);
    if words(line).len() == 2 {
        assert(column(lines, c) + seq![spec_parse_i32(words(line)[c]).unwrap()] =~= column(
            lines,
            c,
        ).push(spec_parse_i32(words(line)[c]).unwrap()));
    } else {
        assert(column(lines, c) + Seq::<i32>::empty() =~= column(lines, c));
    }
}

/// Each column has one entry per line with exactly two words.
pub proof fn lemma_column_length(lines: Seq<Seq<char>>, c: int)
    ensures
        column(lines, c).len() == two_word_lines(lines),
        column(Seq::empty(), c) == Seq::<i32>::empty(),
    decreases lines.len(),
{
    if lines.len() > 0 {
        lemma_column_length(lines.drop_last(), c);
    }
}

/// Both columns of a table have the same length.
pub proof fn lemma_columns_same_length(lines: Seq<Seq<char>>)
    ensures
        column(lines, 0).len() == column(lines, 1).len(),
    decreases lines.len(),
{
    if lines.len() > 0 {
        lemma_columns_same_length(lines.drop_last());
    }
}

/// Whether `c` is a whitespace character, as `char::is_whitespace`.
pub fn is_whitespace_char(c: char) -> (res: bool)
    ensures
        res == is_whitespace(c),
{
    ('\u{9}' <= c && c <= '\u{d}') || c == ' ' || c == '\u{85}' || c == '\u{a0}' || c
        == '\u{1680}' || ('\u{2000}' <= c && c <= '\u{200a}') || c == '\u{2028}' || c
        == '\u{2029}' || c == '\u{202f}' || c == '\u{205f}' || c == '\u{3000}'
}

/// The words of `s`: its maximal runs of characters that are not
/// whitespace, in order, as `str::split_whitespace` gives them.
pub fn split_words(s: &str) -> (res: Vec<String>)
    ensures
        res.deep_view() == words(s@),
{
    let n = s.unicode_len();
    let mut parts: Vec<String> = Vec::new();
    let mut start: usize = 0;
    let mut i: usize = 0;
    assert(s@.skip(0) =~= s@);
    assert(s@.subrange(0, 0) =~= Seq::<char>::empty());
    assert(parts.deep_view() + words_after(s@.skip(0), s@.subrange(0, 0)) =~= words(s@));
    while i < n
        invariant
            start <= i <= n,
            n == s@.len(),
            parts.deep_view() + words_after(s@.skip(i as int), s@.subrange(start as int, i as int))
                == words(s@),
        decreases n - i,
    {
        let c = s.get_char(i);
        let ghost cur = s@.subrange(start as int, i as int);
        let ghost before = parts.deep_view();
        assert(s@.skip(i as int).drop_first() =~= s@.skip(i + 1));
        assert(s@.skip(i as int)[0] == c);
        if is_whitespace_char(c) {
            if start < i {
                let w = s.substring_char(start, i).to_owned();
                parts.push(w);
                assert(parts.deep_view() =~= before.push(cur));
                assert(before + (seq![cur] + words_after(s@.skip(i + 1), Seq::empty()))
                    =~= parts.deep_view() + words_after(s@.skip(i + 1), Seq::empty()));
            } else {
                assert(cur.len() == 0);
                assert(Seq::<Seq<char>>::empty() + words_after(s@.skip(i + 1), Seq::empty())
                    =~= words_after(s@.skip(i + 1), Seq::empty()));
            }
            start = i + 1;
            assert(s@.subrange(start as int, start as int) =~= Seq::<char>::empty());
        } else {
            assert(cur.push(c) =~= s@.subrange(start as int, i + 1));
        }
        i = i + 1;
    }
    let ghost cur = s@.subrange(start as int, n as int);
    let ghost before = parts.deep_view();
    assert(s@.skip(n as int).len() == 0);
    if start < n {
        let w = s.substring_char(start, n).to_owned();
        parts.push(w);
        assert(parts.deep_view() =~= before + seq![cur]);
    } else {
        assert(before + words_after(s@.skip(n as int), cur) =~= before);
    }
    parts
}

/// Two columns of numbers.
#[derive(Debug)]
pub struct BothList {
    pub arr1: Vec<i32>,
    pub arr2: Vec<i32>,
}

/// The two columns of a table: for each line that holds exactly two words,
/// the first word goes to `arr1` and the second to `arr2`, each read as an
/// `i32`; other lines are passed over. Such words must read as `i32`.
#[allow(non_snake_case)]
pub fn readFileData(lines: Vec<String>) -> (res: BothList)
    requires
        forall|i: int| 0 <= i < lines@.len() ==> line_parses(#[trigger] lines@[i]@),
    ensures
        res.arr1@ == column(lines.deep_view(), 0),
        res.arr2@ == column(lines.deep_view(), 1),
        res.arr1@.len() == res.arr2@.len(),
{
    let ghost all = lines.deep_view();
    let n = lines.len();
    let mut arr1: Vec<i32> = Vec::new();
    let mut arr2: Vec<i32> = Vec::new();
    let mut i: usize = 0;
    assert(all.take(0) =~= Seq::<Seq<char>>::empty());
    while i < n
        invariant
            i <= n,
            n == lines@.len(),
            all == lines.deep_view(),
            forall|j: int| 0 <= j < lines@.len() ==> line_parses(#[trigger] lines@[j]@),
            arr1@ == column(all.take(i as int), 0),
            arr2@ == column(all.take(i as int), 1),
        decreases n - i,
    {
        let parts = split_words(lines[i].as_str());
        assert(all[i as int] == lines@[i as int]@);
        assert(all.take(i + 1).drop_last() =~= all.take(i as int));
        assert(all.take(i + 1).last() == all[i as int]);
        assert(line_parses(lines@[i as int]@));
        if parts.len() == 2 {
            assert(parts.deep_view()[0] == parts@[0]@);
            assert(parts.deep_view()[1] == parts@[1]@);
            let a = parse_i32(parts[0].as_str());
            let b = parse_i32(parts[1].as_str());
            match (a, b) {
                (Some(x), Some(y)) => {
                    arr1.push(x);
                    arr2.push(y);
                },
                _ => {
                    assert(false);
                },
            }
        }
        assert(arr1@ =~= column(all.take(i + 1), 0));
        assert(arr2@ =~= column(all.take(i + 1), 1));
        i = i + 1;
    }
    assert(all.take(n as int) =~= all);
    proof {
        lemma_columns_same_length(all);
    }
    BothList { arr1, arr2 }
}

} // verus!

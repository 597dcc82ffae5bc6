//! Character-level text operations: whitespace classes, trimming, prefix and
//! substring tests, each with a mathematical definition over `Seq<char>` and a
//! verified executable counterpart.

use vstd::prelude::*;

verus! {

/// The characters that carry the Unicode `White_Space` property.
pub open spec fn is_whitespace(c: char) -> bool {
    let n = c as u32;
    ||| 0x09 <= n <= 0x0D
    ||| n == 0x20
    ||| n == 0x85
    ||| n == 0xA0
    ||| n == 0x1680
    ||| 0x2000 <= n <= 0x200A
    ||| n == 0x2028
    ||| n == 0x2029
    ||| n == 0x202F
    ||| n == 0x205F
    ||| n == 0x3000
}

/// Tells whether `c` is a whitespace character.
pub fn whitespace(c: char) -> (r: bool)
    ensures
        r == is_whitespace(c),
{
    let n: u32 = c as u32;
    (0x09 <= n && n <= 0x0D) || n == 0x20 || n == 0x85 || n == 0xA0 || n == 0x1680 || (0x2000 <= n
        && n <= 0x200A) || n == 0x2028 || n == 0x2029 || n == 0x202F || n == 0x205F || n == 0x3000
}

/// Appends one character to a string, through `String::push`.
#[verifier::external_body]
pub(crate) fn push_char(s: &mut String, c: char)
    ensures
        final(s)@ == old(s)@.push(c),
{
    s.push(c)
}

/// The characters of `s`, in order.
pub fn chars_of(s: &str) -> (v: Vec<char>)
    ensures
        v@ == s@,
{
    let mut v: Vec<char> = Vec::new();
    for c in it: s.chars()
        invariant
            it.seq() == s@,
            v@ == s@.take(it.index()),
    {
        v.push(c);
        assert(s@.take(it.index() + 1) =~= s@.take(it.index()).push(s@[it.index()]));
    }
    v
}

/// The string made of `v[from..to]`.
pub fn string_of(v: &Vec<char>, from: usize, to: usize) -> (s: String)
    requires
        from <= to <= v.len(),
    ensures
        s@ == v@.subrange(from as int, to as int),
{
    let mut s = String::new();
    let mut i: usize = from;
    while i < to
        invariant
            from <= i <= to <= v.len(),
            s@ == v@.subrange(from as int, i as int),
        decreases to - i,
    {
        push_char(&mut s, v[i]);
        i = i + 1;
        assert(v@.subrange(from as int, i as int) =~= v@.subrange(from as int, i - 1).push(v@[i - 1]));
    }
    s
}

/// A class of characters that can be stripped from the ends of a text.
#[derive(Clone, Copy, Debug, PartialEq, Eq)]
pub enum CharClass {
    /// Every whitespace character.
    Whitespace,
    /// One given character.
    Exactly(char),
}

impl CharClass {
    /// Membership of `c` in the class.
    pub open spec fn has(self, c: char) -> bool {
        match self {
            CharClass::Whitespace => is_whitespace(c),
            CharClass::Exactly(x) => c == x,
        }
    }

    /// Tells whether `c` belongs to the class.
    pub fn contains(&self, c: char) -> (r: bool)
        ensures
            r == self.has(c),
    {
        match self {
            CharClass::Whitespace => whitespace(c),
            CharClass::Exactly(x) => c == *x,
        }
    }
}

/// `s` without its longest prefix made of characters of `class`.
pub open spec fn without_leading(s: Seq<char>, class: CharClass) -> Seq<char>
    decreases s.len(),
{
    if s.len() > 0 && class.has(s.first()) {
        without_leading(s.drop_first(), class)
    } else {
        s
    }
}

/// `s` without its longest suffix made of characters of `class`.
pub open spec fn without_trailing(s: Seq<char>, class: CharClass) -> Seq<char>
    decreases s.len(),
{
    if s.len() > 0 && class.has(s.last()) {
        without_trailing(s.drop_last(), class)
    } else {
        s
    }
}

/// `s` with `prefix` removed from its front as often as it occurs there.
pub open spec fn without_leading_text(s: Seq<char>, prefix: Seq<char>) -> Seq<char>
    decreases s.len(),
{
    if prefix.len() > 0 && prefix.is_prefix_of(s) {
        without_leading_text(s.skip(prefix.len() as int), prefix)
    } else {
        s
    }
}

/// `s` without leading whitespace.
pub open spec fn trimmed_start(s: Seq<char>) -> Seq<char> {
    without_leading(s, CharClass::Whitespace)
}

/// `s` without leading and trailing whitespace.
pub open spec fn trimmed(s: Seq<char>) -> Seq<char> {
    without_trailing(without_leading(s, CharClass::Whitespace), CharClass::Whitespace)
}

/// `needle` occurs in `s` as a contiguous run of characters.
pub open spec fn has_substring(s: Seq<char>, needle: Seq<char>) -> bool {
    exists|i: int| occurs_at(s, needle, i)
}

/// `needle` occurs in `s` at position `i`.
pub open spec fn occurs_at(s: Seq<char>, needle: Seq<char>, i: int) -> bool {
    0 <= i && i + needle.len() <= s.len() && s.subrange(i, i + needle.len()) == needle
}

/// What follows the last `sep` in `s`; all of `s` where it holds no `sep`.
pub open spec fn final_segment(s: Seq<char>, sep: char) -> Seq<char>
    decreases s.len(),
{
    if s.len() == 0 || s.last() == sep {
        Seq::empty()
    } else {
        final_segment(s.drop_last(), sep).push(s.last())
    }
}

/// The first index in `from..to` whose character is outside `class`, or `to`.
pub fn leading_end(v: &Vec<char>, from: usize, to: usize, class: CharClass) -> (i: usize)
    requires
        from <= to <= v.len(),
    ensures
        from <= i <= to,
        v@.subrange(i as int, to as int) == without_leading(
            v@.subrange(from as int, to as int),
            class,
        ),
{
    let mut i: usize = from;
    while i < to && class.contains(v[i])
        invariant
            from <= i <= to <= v.len(),
            without_leading(v@.subrange(i as int, to as int), class) == without_leading(
                v@.subrange(from as int, to as int),
                class,
            ),
        decreases to - i,
    {
        assert(v@.subrange(i as int, to as int).drop_first() =~= v@.subrange(i + 1, to as int));
        i = i + 1;
    }
    i
}

/// One past the last index in `from..to` whose character is outside `class`,
/// or `from`.
pub fn trailing_start(v: &Vec<char>, from: usize, to: usize, class: CharClass) -> (j: usize)
    requires
        from <= to <= v.len(),
    ensures
        from <= j <= to,
        v@.subrange(from as int, j as int) == without_trailing(
            v@.subrange(from as int, to as int),
            class,
        ),
{
    let mut j: usize = to;
    while from < j && class.contains(v[j - 1])
        invariant
            from <= j <= to <= v.len(),
            without_trailing(v@.subrange(from as int, j as int), class) == without_trailing(
                v@.subrange(from as int, to as int),
                class,
            ),
        decreases j - from,
    {
        assert(v@.subrange(from as int, j as int).drop_last() =~= v@.subrange(from as int, j - 1));
        j = j - 1;
    }
    j
}

/// Tells whether `prefix` stands at the front of `v[from..to]`.
pub fn has_prefix_at(v: &Vec<char>, from: usize, to: usize, prefix: &Vec<char>) -> (r: bool)
    requires
        from <= to <= v.len(),
    ensures
        r == prefix@.is_prefix_of(v@.subrange(from as int, to as int)),
{
    if prefix.len() > to - from {
        return false;
    }
    let ghost s = v@.subrange(from as int, to as int);
    let mut k: usize = 0;
    while k < prefix.len()
        invariant
            from <= to <= v.len(),
            prefix.len() <= to - from,
            k <= prefix.len(),
            s == v@.subrange(from as int, to as int),
            forall|m: int| 0 <= m < k ==> prefix@[m] == s[m],
        decreases prefix.len() - k,
    {
        if v[from + k] != prefix[k] {
            assert(s[k as int] != prefix@[k as int]);
            assert(s.subrange(0, prefix@.len() as int)[k as int] == s[k as int]);
            return false;
        }
        k = k + 1;
    }
    assert(s.subrange(0, prefix@.len() as int) =~= prefix@);
    true
}

/// The index in `from..=to` at which `v[from..to]` stops beginning with
/// `prefix`, taking `prefix` off as often as it occurs.
pub fn leading_text_end(v: &Vec<char>, from: usize, to: usize, prefix: &Vec<char>) -> (i: usize)
    requires
        from <= to <= v.len(),
    ensures
        from <= i <= to,
        v@.subrange(i as int, to as int) == without_leading_text(
            v@.subrange(from as int, to as int),
            prefix@,
        ),
{
    let mut i: usize = from;
    if prefix.len() == 0 {
        return i;
    }
    while has_prefix_at(v, i, to, prefix)
        invariant
            from <= i <= to <= v.len(),
            prefix.len() > 0,
            without_leading_text(v@.subrange(i as int, to as int), prefix@)
                == without_leading_text(v@.subrange(from as int, to as int), prefix@),
        decreases to - i,
    {
        assert(v@.subrange(i as int, to as int).skip(prefix@.len() as int) =~= v@.subrange(
            i + prefix@.len(),
            to as int,
        ));
        i = i + prefix.len();
    }
    i
}

/// `s` without leading and trailing whitespace.
pub fn trim(s: &str) -> (r: String)
    ensures
        r@ == trimmed(s@),
{
    let v = chars_of(s);
    assert(v@.subrange(0, v.len() as int) =~= v@);
    let i = leading_end(&v, 0, v.len(), CharClass::Whitespace);
    let j = trailing_start(&v, i, v.len(), CharClass::Whitespace);
    string_of(&v, i, j)
}

/// `s` without leading whitespace.
pub fn trim_start(s: &str) -> (r: String)
    ensures
        r@ == trimmed_start(s@),
{
    let v = chars_of(s);
    assert(v@.subrange(0, v.len() as int) =~= v@);
    let i = leading_end(&v, 0, v.len(), CharClass::Whitespace);
    string_of(&v, i, v.len())
}

/// What follows `prefix` in `s`, where `s` begins with it.
pub fn strip_prefix(s: &str, prefix: &str) -> (r: Option<String>)
    ensures
        match r {
            Some(rest) => prefix@.is_prefix_of(s@) && rest@ == s@.skip(prefix@.len() as int),
            None => !prefix@.is_prefix_of(s@),
        },
{
    let v = chars_of(s);
    let p = chars_of(prefix);
    assert(v@.subrange(0, v.len() as int) =~= v@);
    if has_prefix_at(&v, 0, v.len(), &p) {
        Some(string_of(&v, p.len(), v.len()))
    } else {
        None
    }
}

/// Tells whether `needle` occurs in `s`.
pub fn contains(s: &str, needle: &str) -> (r: bool)
    ensures
        r == has_substring(s@, needle@),
{
    let v = chars_of(s);
    let p = chars_of(needle);
    if p.len() > v.len() {
        return false;
    }
    let last: usize = v.len() - p.len();
    let mut i: usize = 0;
    while i <= last
        invariant
            v@ == s@,
            p@ == needle@,
            p.len() <= v.len(),
            last == v.len() - p.len(),
            i <= last + 1,
            forall|k: int| 0 <= k < i ==> !occurs_at(v@, p@, k),
        decreases last + 1 - i,
    {
        if has_prefix_at(&v, i, v.len(), &p) {
            assert(v@.subrange(i as int, v.len() as int).subrange(0, p@.len() as int) =~= v@.subrange(
                i as int,
                i + p@.len(),
            ));
            assert(occurs_at(v@, p@, i as int));
            return true;
        }
        assert(v@.subrange(i as int, v.len() as int).subrange(0, p@.len() as int) =~= v@.subrange(
            i as int,
            i + p@.len(),
        ));
        i = i + 1;
    }
    false
}

/// What follows the last `sep` in `s`; all of `s` where it holds no `sep`.
pub fn last_segment(s: &str, sep: char) -> (r: String)
    ensures
        r@ == final_segment(s@, sep),
{
    let v = chars_of(s);
    let mut j: usize = v.len();
    assert(v@.subrange(j as int, v.len() as int) =~= Seq::<char>::empty());
    assert(v@.subrange(0, j as int) =~= v@);
    while j > 0 && v[j - 1] != sep
        invariant
            j <= v.len(),
            final_segment(v@, sep) == final_segment(v@.subrange(0, j as int), sep) + v@.subrange(
                j as int,
                v.len() as int,
            ),
        decreases j,
    {
        assert(v@.subrange(0, j as int).drop_last() =~= v@.subrange(0, j - 1));
        assert(final_segment(v@.subrange(0, j - 1), sep).push(v@[j - 1]) + v@.subrange(
            j as int,
            v.len() as int,
        ) =~= final_segment(v@.subrange(0, j - 1), sep) + v@.subrange(j - 1, v.len() as int));
        j = j - 1;
    }
    assert(final_segment(v@.subrange(0, j as int), sep) + v@.subrange(j as int, v.len() as int)
        =~= v@.subrange(j as int, v.len() as int));
    string_of(&v, j, v.len())
}

/// Tells whether two texts hold the same characters.
pub fn same_text(a: &str, b: &str) -> (r: bool)
    ensures
        r == (a@ == b@),
{
    let x = a.to_owned();
    let y = b.to_owned();
    x == y
}

/// `s` with each maximal run of whitespace replaced by one space.
pub open spec fn collapsed(s: Seq<char>) -> Seq<char>
    decreases s.len(),
{
    if s.len() == 0 {
        s
    } else if !is_whitespace(s.last()) {
        collapsed(s.drop_last()).push(s.last())
    } else if s.len() >= 2 && is_whitespace(s[s.len() - 2]) {
        collapsed(s.drop_last())
    } else {
        collapsed(s.drop_last()).push(' ')
    }
}

/// Calls `regex::Regex::replace_all` for the pattern `\s+`, which matches each
/// maximal run of `White_Space` characters, and the replacement `" "`: every
/// such run of `text` comes back as one space, the rest unchanged.
#[verifier::external_body]
pub(crate) fn regex_replace_all(pattern: &str, text: &str, replacement: &str) -> (r: String)
    requires
        pattern@ == "\\s+"@,
        replacement@ == " "@,
    ensures
        r@ == collapsed(text@),
{
    regex::Regex::new(pattern).unwrap().replace_all(text, replacement).into_owned()
}

/// Every character of `s` is whitespace.
pub open spec fn all_whitespace(s: Seq<char>) -> bool {
    forall|i: int| 0 <= i < s.len() ==> is_whitespace(#[trigger] s[i])
}

/// A run of whitespace at the end of a text collapses to one space, or to
/// nothing more where the text before it ends in whitespace already.
pub proof fn lemma_collapsed_run(before: Seq<char>, run: Seq<char>)
    requires
        run.len() > 0,
        all_whitespace(run),
    ensures
        collapsed(before + run) == if before.len() > 0 && is_whitespace(before.last()) {
            collapsed(before)
        } else {
            collapsed(before).push(' ')
        },
    decreases run.len(),
{
    let s = before + run;
    assert(s.drop_last() =~= before + run.drop_last());
    assert(is_whitespace(run[run.len() - 1]));
    if run.len() == 1 {
        assert(before + run.drop_last() =~= before);
    } else {
        assert(is_whitespace(run[run.len() - 2]));
        assert forall|i: int| 0 <= i < run.drop_last().len() implies is_whitespace(
            #[trigger] run.drop_last()[i],
        ) by {
            assert(is_whitespace(run[i]));
        }
        lemma_collapsed_run(before, run.drop_last());
    }
}

/// Two texts that collapse alike and both end in whitespace still collapse
/// alike when the same text follows them.
pub proof fn lemma_collapsed_suffix(first: Seq<char>, second: Seq<char>, after: Seq<char>)
    requires
        collapsed(first) == collapsed(second),
        first.len() > 0 && is_whitespace(first.last()),
        second.len() > 0 && is_whitespace(second.last()),
    ensures
        collapsed(first + after) == collapsed(second + after),
    decreases after.len(),
{
    if after.len() == 0 {
        assert(first + after =~= first);
        assert(second + after =~= second);
    } else {
        lemma_collapsed_suffix(first, second, after.drop_last());
        assert((first + after).drop_last() =~= first + after.drop_last());
        assert((second + after).drop_last() =~= second + after.drop_last());
    }
}

/// The words of a text: its maximal runs of characters that are no
/// whitespace, in order.
pub open spec fn words(s: Seq<char>) -> Seq<Seq<char>>
    decreases s.len(),
{
    if s.len() == 0 {
        Seq::empty()
    } else if is_whitespace(s.last()) {
        words(s.drop_last())
    } else if s.len() >= 2 && !is_whitespace(s[s.len() - 2]) {
        let before = words(s.drop_last());
        before.drop_last().push(before.last().push(s.last()))
    } else {
        words(s.drop_last()).push(seq![s.last()])
    }
}

/// The words with one space between each two.
pub open spec fn joined(words: Seq<Seq<char>>) -> Seq<char>
    decreases words.len(),
{
    if words.len() == 0 {
        Seq::empty()
    } else if words.len() == 1 {
        words[0]
    } else {
        joined(words.drop_last()).push(' ') + words.last()
    }
}

/// Every word is a run of one or more characters that are no whitespace.
pub open spec fn proper_words(words: Seq<Seq<char>>) -> bool {
    forall|i: int|
        0 <= i < words.len() ==> (#[trigger] words[i]).len() > 0 && forall|j: int|
            0 <= j < words[i].len() ==> !is_whitespace(#[trigger] words[i][j])
}

/// The words of a text are proper; a text that ends in a character that is no
/// whitespace ends in its last word, and a text without words is whitespace.
pub proof fn lemma_words(s: Seq<char>)
    ensures
        proper_words(words(s)),
        s.len() > 0 && !is_whitespace(s.last()) ==> words(s).len() > 0 && words(s).last().last()
            == s.last(),
        words(s).len() == 0 ==> all_whitespace(s),
    decreases s.len(),
{
    if s.len() > 0 {
        let front = s.drop_last();
        let before = words(front);
        lemma_words(front);
        if is_whitespace(s.last()) {
            assert(words(s) == before);
            if before.len() == 0 {
                assert forall|i: int| 0 <= i < s.len() implies is_whitespace(#[trigger] s[i]) by {
                    if i < front.len() {
                        assert(front[i] == s[i]);
                    }
                }
            }
        } else if s.len() >= 2 && !is_whitespace(s[s.len() - 2]) {
            assert(front.last() == s[s.len() - 2]);
            let grown = before.last().push(s.last());
            let after = before.drop_last().push(grown);
            assert(words(s) == after);
            assert forall|i: int| 0 <= i < after.len() implies (#[trigger] after[i]).len() > 0
                && forall|j: int| 0 <= j < after[i].len() ==> !is_whitespace(#[trigger] after[i][j]) by {
                if i < after.len() - 1 {
                    assert(after[i] == before[i]);
                } else {
                    assert(after[i] == grown);
                    assert forall|j: int| 0 <= j < grown.len() implies !is_whitespace(
                        #[trigger] grown[j],
                    ) by {
                        if j < before.last().len() {
                            assert(grown[j] == before[before.len() - 1][j]);
                        }
                    }
                }
            }
        } else {
            let after = before.push(seq![s.last()]);
            assert(words(s) == after);
            assert forall|i: int| 0 <= i < after.len() implies (#[trigger] after[i]).len() > 0
                && forall|j: int| 0 <= j < after[i].len() ==> !is_whitespace(#[trigger] after[i][j]) by {
                if i < before.len() {
                    assert(after[i] == before[i]);
                }
            }
        }
    }
}

/// Proper words, joined, begin and end with a character that is no whitespace.
pub proof fn lemma_joined(words: Seq<Seq<char>>)
    requires
        proper_words(words),
        words.len() > 0,
    ensures
        joined(words).len() > 0,
        !is_whitespace(joined(words).first()),
        !is_whitespace(joined(words).last()),
        joined(words).last() == words.last().last(),
    decreases words.len(),
{
    let last = words[words.len() - 1];
    assert(last.len() > 0 && !is_whitespace(last[0]) && !is_whitespace(last[last.len() - 1]));
    if words.len() > 1 {
        let front = words.drop_last();
        assert forall|i: int| 0 <= i < front.len() implies (#[trigger] front[i]).len() > 0
            && forall|j: int| 0 <= j < front[i].len() ==> !is_whitespace(#[trigger] front[i][j]) by {
            assert(front[i] == words[i]);
        }
        lemma_joined(front);
        let text = joined(front).push(' ') + last;
        assert(text[0] == joined(front)[0]);
        assert(text[text.len() - 1] == last[last.len() - 1]);
    }
}

/// A character added to the last word is added to the joined text.
pub proof fn lemma_joined_grown(words: Seq<Seq<char>>, c: char)
    requires
        words.len() > 0,
    ensures
        joined(words.drop_last().push(words.last().push(c))) == joined(words).push(c),
{
    let grown = words.drop_last().push(words.last().push(c));
    assert(grown.drop_last() =~= words.drop_last());
    if words.len() == 1 {
        assert(grown[0] == words[0].push(c));
    } else {
        assert(joined(words.drop_last()).push(' ') + words.last().push(c) =~= (joined(
            words.drop_last(),
        ).push(' ') + words.last()).push(c));
    }
}

/// A text collapses to its words, joined, with one space before them where
/// the text begins with whitespace and one after them where it ends with it.
pub proof fn lemma_collapsed_words(s: Seq<char>)
    ensures
        collapsed(s) == (if s.len() > 0 && is_whitespace(s.first()) {
            seq![' ']
        } else {
            Seq::empty()
        }) + joined(words(s)) + (if s.len() > 0 && is_whitespace(s.last()) && words(s).len() > 0 {
            seq![' ']
        } else {
            Seq::empty()
        }),
    decreases s.len(),
{
    let space = seq![' '];
    let none = Seq::<char>::empty();
    if s.len() > 0 {
        let front = s.drop_last();
        let c = s.last();
        lemma_collapsed_words(front);
        lemma_words(front);
        lemma_words(s);
        let before = words(front);
        let lead = if front.len() > 0 && is_whitespace(front.first()) {
            space
        } else {
            none
        };
        if front.len() > 0 {
            assert(front.first() == s.first());
            assert(front.last() == s[s.len() - 2]);
        }
        if !is_whitespace(c) {
            if front.len() > 0 && !is_whitespace(front.last()) {
                lemma_joined_grown(before, c);
                assert(collapsed(s) =~= lead + joined(before).push(c) + none);
            } else if front.len() == 0 {
                assert(joined(words(s)) =~= seq![c]);
                assert(collapsed(s) =~= none + seq![c] + none);
            } else if before.len() == 0 {
                assert(words(s) =~= seq![seq![c]]);
                assert(joined(words(s)) =~= seq![c]);
                assert(is_whitespace(front.first())) by {
                    assert(is_whitespace(front[0]));
                }
                assert(collapsed(s) =~= space + seq![c] + none);
            } else {
                assert(words(s).drop_last() =~= before);
                assert(joined(words(s)) =~= joined(before).push(' ') + seq![c]);
                assert(collapsed(s) =~= lead + (joined(before).push(' ') + seq![c]) + none);
            }
        } else {
            if front.len() == 0 {
                assert(collapsed(s) =~= space + none + none);
            } else if is_whitespace(front.last()) {
                assert(collapsed(s) == collapsed(front));
            } else {
                assert(collapsed(s) =~= lead + joined(before) + space);
            }
        }
    } else {
        assert(collapsed(s) =~= none + none + none);
    }
}

/// A text without its whitespace at the ends, each run of whitespace within
/// it collapsed, is its words joined by single spaces.
pub proof fn lemma_trimmed_collapsed(s: Seq<char>)
    ensures
        trimmed(collapsed(s)) == joined(words(s)),
{
    reveal_with_fuel(without_leading, 3);
    reveal_with_fuel(without_trailing, 3);
    lemma_collapsed_words(s);
    lemma_words(s);
    let text = joined(words(s));
    let space = seq![' '];
    let none = Seq::<char>::empty();
    let lead = s.len() > 0 && is_whitespace(s.first());
    let trail = s.len() > 0 && is_whitespace(s.last()) && words(s).len() > 0;
    assert(is_whitespace(' '));
    if words(s).len() > 0 {
        lemma_joined(words(s));
        let tail = if trail {
            space
        } else {
            none
        };
        let rest = text + tail;
        assert(rest[0] == text[0]);
        if lead {
            assert((space + text + tail).drop_first() =~= rest);
            assert((space + text + tail).first() == ' ');
        } else {
            assert(none + text + tail =~= rest);
        }
        assert(without_leading(collapsed(s), CharClass::Whitespace) == rest);
        if trail {
            assert(rest.drop_last() =~= text);
            assert(rest.last() == ' ');
        } else {
            assert(rest =~= text);
        }
    } else {
        assert(text =~= none);
        if lead {
            assert(collapsed(s) =~= space);
            assert(space.drop_first() =~= none);
            assert(space.first() == ' ');
        } else {
            assert(collapsed(s) =~= none);
        }
    }
}

} // verus!

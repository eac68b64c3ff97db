//! Text primitives: characters of a string, case folding and whitespace.

use vstd::prelude::*;
use vstd::string::StringExecFns;

verus! {

/// What `str::to_lowercase` returns for a text.
pub uninterp spec fn lowercase_of(text: Seq<char>) -> Seq<char>;

/// Whether `char::is_whitespace` holds of a character.
pub uninterp spec fn whitespace_char(c: char) -> bool;

/// `str::to_lowercase`: the lower-case form of `text`, a function of the
/// characters alone.
#[verifier::external_body]
pub(crate) fn lowercase(text: &str) -> (folded: String)
    ensures
        folded@ == lowercase_of(text@),
{
    text.to_lowercase()
}

/// `char::is_whitespace`: whether `c` has the Unicode property White_Space.
#[verifier::external_body]
pub(crate) fn is_whitespace(c: char) -> (white: bool)
    ensures
        white == whitespace_char(c),
{
    c.is_whitespace()
}

/// `String::push`: appends one character.
#[verifier::external_body]
pub(crate) fn push_char(text: &mut String, c: char)
    ensures
        final(text)@ == old(text)@.push(c),
{
    text.push(c)
}

/// The characters of `text`, in order.
pub fn chars_of(text: &str) -> (chars: Vec<char>)
    ensures
        chars@ == text@,
{
    let mut chars: Vec<char> = Vec::new();
    for c in it: text.chars()
        invariant
            chars@ == it.seq().take(it.index()),
    {
        chars.push(c);
    }
    chars
}

/// The words of a text read so far, and the word that is being read.
pub open spec fn scanned(text: Seq<char>) -> (Seq<Seq<char>>, Seq<char>)
    decreases text.len(),
{
    if text.len() == 0 {
        (Seq::empty(), Seq::empty())
    } else {
        let (done, word) = scanned(text.drop_last());
        if !whitespace_char(text.last()) {
            (done, word.push(text.last()))
        } else if word.len() > 0 {
            (done.push(word), Seq::empty())
        } else {
            (done, word)
        }
    }
}

/// The words of a text: its longest runs of characters that are not
/// whitespace, in order.
pub open spec fn words_of(text: Seq<char>) -> Seq<Seq<char>> {
    let (done, word) = scanned(text);
    if word.len() > 0 {
        done.push(word)
    } else {
        done
    }
}

/// A word: not empty, and free of whitespace.
pub open spec fn solid(word: Seq<char>) -> bool {
    &&& word.len() > 0
    &&& forall|j: int| 0 <= j < word.len() ==> !whitespace_char(word[j])
}

/// Every word of a text is a word: not empty, and free of whitespace.
pub proof fn law_words_are_solid(text: Seq<char>)
    ensures
        forall|i: int| 0 <= i < words_of(text).len() ==> solid(#[trigger] words_of(text)[i]),
{
    lemma_scanned_is_solid(text);
}

/// What was read of a text holds no empty word and no whitespace.
pub proof fn lemma_scanned_is_solid(text: Seq<char>)
    ensures
        forall|i: int| 0 <= i < scanned(text).0.len() ==> solid(#[trigger] scanned(text).0[i]),
        forall|j: int|
            0 <= j < scanned(text).1.len() ==> !whitespace_char(#[trigger] scanned(text).1[j]),
    decreases text.len(),
{
    if text.len() > 0 {
        lemma_scanned_is_solid(text.drop_last());
        let (done, word) = scanned(text.drop_last());
        assert forall|i: int| 0 <= i < scanned(text).0.len() implies solid(
            #[trigger] scanned(text).0[i],
        ) by {
            if i < done.len() {
                assert(solid(done[i]));
            }
        }
    }
}

/// The words of a text, as `str::split_whitespace` gives them: the longest
/// runs of characters that are not whitespace, in order.
pub fn split_whitespace(text: &str) -> (words: Vec<String>)
    ensures
        words.deep_view() == words_of(text@),
{
    let mut words: Vec<String> = Vec::new();
    let mut word = String::new();
    let mut filled = false;
    assert(text@.take(0) =~= Seq::<char>::empty());
    for c in it: text.chars()
        invariant
            it.seq() == text@,
            words.deep_view() == scanned(text@.take(it.index())).0,
            word@ == scanned(text@.take(it.index())).1,
            filled == (word@.len() > 0),
    {
        let ghost before = words.deep_view();
        assert(text@.take(it.index() + 1).drop_last() =~= text@.take(it.index()));
        if !is_whitespace(c) {
            push_char(&mut word, c);
            filled = true;
        } else if filled {
            let mut full = String::new();
            core::mem::swap(&mut full, &mut word);
            words.push(full);
            filled = false;
            assert(words.deep_view() =~= before.push(full@));
        }
    }
    assert(text@.take(text@.len() as int) =~= text@);
    if filled {
        let ghost before = words.deep_view();
        words.push(word);
        assert(words.deep_view() =~= before.push(word@));
    }
    words
}

/// Whether the character has a meaning of its own in a regular expression.
pub open spec fn is_meta_character(c: char) -> bool {
    c == '\\' || c == '.' || c == '+' || c == '*' || c == '?' || c == '(' || c == ')' || c == '|'
        || c == '[' || c == ']' || c == '{' || c == '}' || c == '^' || c == '$' || c == '#' || c
        == '&' || c == '-' || c == '~'
}

/// The text with a backslash before each of its meta characters.
pub open spec fn escaped(text: Seq<char>) -> Seq<char>
    decreases text.len(),
{
    if text.len() == 0 {
        text
    } else if is_meta_character(text.last()) {
        escaped(text.drop_last()).push('\\').push(text.last())
    } else {
        escaped(text.drop_last()).push(text.last())
    }
}

/// `regex_syntax::escape`: the text as a literal of a regular expression.
/// The function copies the text character by character and puts a backslash
/// before each of the eighteen characters that `is_meta_character` names.
#[verifier::external_body]
pub(crate) fn escape(text: &str) -> (quoted: String)
    ensures
        quoted@ == escaped(text@),
{
    regex_syntax::escape(text)
}

/// Whether `needle` stands in `hay` as one run of characters.
pub open spec fn occurs_in(needle: Seq<char>, hay: Seq<char>) -> bool {
    exists|at: int| occurs_at(needle, hay, at)
}

/// Whether `needle` stands in `hay` from the index `at` on.
pub open spec fn occurs_at(needle: Seq<char>, hay: Seq<char>, at: int) -> bool {
    &&& 0 <= at
    &&& at + needle.len() <= hay.len()
    &&& hay.subrange(at, at + needle.len()) == needle
}

/// Whether `needle` stands in `hay` from the index `at` on.
fn stands_at(needle: &Vec<char>, hay: &Vec<char>, at: usize) -> (found: bool)
    requires
        at + needle.len() <= hay.len(),
    ensures
        found == occurs_at(needle@, hay@, at as int),
{
    let mut i: usize = 0;
    while i < needle.len()
        invariant
            i <= needle.len(),
            at + needle.len() <= hay.len(),
            forall|j: int| 0 <= j < i ==> hay[at + j] == needle[j],
        decreases needle.len() - i,
    {
        if hay[at + i] != needle[i] {
            assert(hay@.subrange(at as int, at + needle.len())[i as int] == hay[at + i]);
            return false;
        }
        i += 1;
    }
    assert(hay@.subrange(at as int, at + needle.len()) =~= needle@);
    true
}

/// Whether `needle` stands in `hay` as one run of characters. The empty text
/// stands in every text.
pub fn contains_text(hay: &str, needle: &str) -> (found: bool)
    ensures
        found == occurs_in(needle@, hay@),
{
    let straw = chars_of(hay);
    let pin = chars_of(needle);
    if pin.len() > straw.len() {
        return false;
    }
    let last = straw.len() - pin.len();
    let mut at: usize = 0;
    loop
        invariant
            straw@ == hay@,
            pin@ == needle@,
            last == straw.len() - pin.len(),
            at <= last,
            forall|k: int| 0 <= k < at ==> !occurs_at(needle@, hay@, k),
        decreases last - at,
    {
        if stands_at(&pin, &straw, at) {
            return true;
        }
        if at == last {
            return false;
        }
        at += 1;
    }
}

/// The texts put together, with the separator between each two of them.
pub open spec fn joined(texts: Seq<Seq<char>>, separator: Seq<char>) -> Seq<char>
    decreases texts.len(),
{
    if texts.len() == 0 {
        Seq::empty()
    } else if texts.len() == 1 {
        texts[0]
    } else {
        joined(texts.drop_last(), separator) + separator + texts.last()
    }
}

/// The texts put together, with the separator between each two of them.
pub fn join(texts: &Vec<String>, separator: &str) -> (whole: String)
    ensures
        whole@ == joined(texts.deep_view(), separator@),
{
    let ghost all = texts.deep_view();
    let mut whole = String::new();
    let mut i: usize = 0;
    assert(all.take(0) =~= Seq::<Seq<char>>::empty());
    while i < texts.len()
        invariant
            i <= texts.len(),
            all == texts.deep_view(),
            whole@ == joined(all.take(i as int), separator@),
        decreases texts.len() - i,
    {
        assert(all.take(i + 1).drop_last() =~= all.take(i as int));
        assert(all.take(i + 1).last() == all[i as int]);
        if i > 0 {
            whole.append(separator);
        } else {
            assert(all.take(1)[0] == all[0]);
            assert(Seq::<char>::empty() + all[0] =~= all[0]);
        }
        whole.append(texts[i].as_str());
        i += 1;
    }
    assert(all.take(i as int) =~= all);
    whole
}

/// The words of a text with an underscore between each two of them.
pub open spec fn snake_of(text: Seq<char>) -> Seq<char> {
    joined(words_of(text), "_"@)
}

/// The words of a text with an underscore between each two of them.
pub fn snake(text: &str) -> (name: String)
    ensures
        name@ == snake_of(text@),
{
    let words = split_whitespace(text);
    join(&words, "_")
}

/// Every text of a list in lower case.
pub open spec fn lowercase_each(texts: Seq<Seq<char>>) -> Seq<Seq<char>> {
    Seq::new(texts.len(), |i: int| lowercase_of(texts[i]))
}

/// The texts of a list, each in lower case, in the same order.
pub fn lowercase_all(texts: &Vec<String>) -> (folded: Vec<String>)
    ensures
        folded.deep_view() == lowercase_each(texts.deep_view()),
{
    let mut folded: Vec<String> = Vec::new();
    let mut i: usize = 0;
    while i < texts.len()
        invariant
            i <= texts.len(),
            folded.len() == i,
            forall|j: int| 0 <= j < i ==> folded[j]@ == lowercase_of(texts[j]@),
        decreases texts.len() - i,
    {
        folded.push(lowercase(texts[i].as_str()));
        i += 1;
    }
    assert(folded.deep_view() =~= lowercase_each(texts.deep_view()));
    folded
}

/// Whether the text is one of the list.
pub fn has_text(list: &Vec<String>, text: &String) -> (found: bool)
    ensures
        found == list.deep_view().contains(text@),
{
    let mut i: usize = 0;
    while i < list.len()
        invariant
            i <= list.len(),
            forall|j: int| 0 <= j < i ==> list[j]@ != text@,
        decreases list.len() - i,
    {
        if list[i] == *text {
            assert(list.deep_view()[i as int] == text@);
            return true;
        }
        i += 1;
    }
    false
}

/// The texts without repeats: each text once, where it stands first.
pub open spec fn distinct(texts: Seq<Seq<char>>) -> Seq<Seq<char>>
    decreases texts.len(),
{
    if texts.len() == 0 {
        texts
    } else if texts.drop_last().contains(texts.last()) {
        distinct(texts.drop_last())
    } else {
        distinct(texts.drop_last()).push(texts.last())
    }
}

/// The texts without repeats hold every text of the list, and none twice.
pub proof fn lemma_distinct(texts: Seq<Seq<char>>)
    ensures
        forall|text: Seq<char>| distinct(texts).contains(text) <==> texts.contains(text),
        forall|i: int, j: int|
            0 <= i < j < distinct(texts).len() ==> distinct(texts)[i] != distinct(texts)[j],
    decreases texts.len(),
{
    if texts.len() > 0 {
        let rest = texts.drop_last();
        let last = texts.last();
        lemma_distinct(rest);
        assert forall|text: Seq<char>| distinct(texts).contains(text) <==> texts.contains(
            text,
        ) by {
            if texts.contains(text) {
                let k = choose|k: int| 0 <= k < texts.len() && texts[k] == text;
                if k < rest.len() {
                    assert(rest[k] == text);
                    assert(rest.contains(text));
                    assert(distinct(rest).contains(text));
                    let m = choose|m: int| 0 <= m < distinct(rest).len() && distinct(rest)[m] == text;
                    if !rest.contains(last) {
                        assert(distinct(texts)[m] == text);
                    }
                } else if rest.contains(last) {
                    assert(text == last);
                    assert(distinct(rest).contains(last));
                } else {
                    assert(distinct(texts)[distinct(rest).len() as int] == text);
                }
            }
            if distinct(texts).contains(text) {
                let m = choose|m: int| 0 <= m < distinct(texts).len() && distinct(texts)[m] == text;
                if m < distinct(rest).len() {
                    assert(distinct(rest)[m] == text);
                    assert(rest.contains(text));
                    let k = choose|k: int| 0 <= k < rest.len() && rest[k] == text;
                    assert(texts[k] == text);
                } else {
                    assert(texts[texts.len() - 1] == text);
                }
            }
        }
        if !rest.contains(last) {
            assert forall|i: int, j: int| 0 <= i < j < distinct(texts).len() implies distinct(
                texts,
            )[i] != distinct(texts)[j] by {
                if j == distinct(rest).len() {
                    assert(distinct(rest)[i] == distinct(texts)[i]);
                    assert(distinct(rest).contains(distinct(rest)[i]));
                }
            }
        }
    }
}

/// The texts without repeats: each text once, where it stands first.
pub fn distinct_texts(texts: &Vec<String>) -> (once: Vec<String>)
    ensures
        once.deep_view() == distinct(texts.deep_view()),
{
    let ghost all = texts.deep_view();
    let mut once: Vec<String> = Vec::new();
    let mut i: usize = 0;
    assert(all.take(0) =~= Seq::<Seq<char>>::empty());
    assert(once.deep_view() =~= Seq::<Seq<char>>::empty());
    while i < texts.len()
        invariant
            i <= texts.len(),
            all == texts.deep_view(),
            once.deep_view() == distinct(all.take(i as int)),
        decreases texts.len() - i,
    {
        let ghost before = once.deep_view();
        proof {
            assert(all.take(i + 1).drop_last() =~= all.take(i as int));
            assert(all.take(i + 1).last() == all[i as int]);
            lemma_distinct(all.take(i as int));
        }
        if !has_text(&once, &texts[i]) {
            once.push(texts[i].clone());
            assert(once.deep_view() =~= before.push(all[i as int]));
        }
        i += 1;
    }
    assert(all.take(i as int) =~= all);
    once
}

/// A copy of a list of texts.
pub fn clone_texts(texts: &Vec<String>) -> (copy: Vec<String>)
    ensures
        copy.deep_view() == texts.deep_view(),
{
    let mut copy: Vec<String> = Vec::new();
    let mut i: usize = 0;
    while i < texts.len()
        invariant
            i <= texts.len(),
            copy.len() == i,
            forall|j: int| 0 <= j < i ==> copy[j]@ == texts[j]@,
        decreases texts.len() - i,
    {
        copy.push(texts[i].clone());
        i += 1;
    }
    assert(copy.deep_view() =~= texts.deep_view());
    copy
}

} // verus!

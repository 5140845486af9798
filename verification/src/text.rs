//! Normalized question texts and their shingles.

use vstd::prelude::*;
use vstd::string::*;

verus! {

/// A text in lower case.
pub uninterp spec fn lowercase(text: Seq<char>) -> Seq<char>;

/// A character is a letter or a number.
pub uninterp spec fn alphanumeric(c: char) -> bool;

/// `str::to_lowercase`: the result is a function of the text alone.
pub assume_specification[ str::to_lowercase ](text: &str) -> (low: String)
    ensures
        low@ == lowercase(text@),
;

/// `char::is_alphanumeric`: the answer is a function of the character alone.
pub assume_specification[ char::is_alphanumeric ](c: char) -> (b: bool)
    ensures
        b == alphanumeric(c),
;

/// `String::push`: appends one character.
pub assume_specification[ String::push ](s: &mut String, c: char)
    ensures
        final(s)@ == old(s)@.push(c),
;

/// The texts of a list of strings.
pub open spec fn texts(v: Seq<String>) -> Seq<Seq<char>> {
    v.map_values(|s: String| s@)
}

/// `text` with a space for every character that is neither letter nor number.
pub open spec fn cleaned(text: Seq<char>) -> Seq<char> {
    text.map_values(|c: char| if alphanumeric(c) { c } else { ' ' })
}

/// `text` cut at its spaces: one piece more than it has spaces, some of them
/// empty where spaces touch each other or an end.
pub open spec fn pieces(text: Seq<char>) -> Seq<Seq<char>>
    decreases text.len(),
{
    if text.len() == 0 {
        seq![Seq::<char>::empty()]
    } else {
        let front = pieces(text.drop_last());
        if text.last() == ' ' {
            front.push(Seq::<char>::empty())
        } else {
            front.drop_last().push(front.last().push(text.last()))
        }
    }
}

/// The words of a list, a space between each two.
pub open spec fn joined(words: Seq<Seq<char>>) -> Seq<char>
    decreases words.len(),
{
    if words.len() == 0 {
        Seq::empty()
    } else if words.len() == 1 {
        words[0]
    } else {
        joined(words.drop_last()).push(' ') + words.last()
    }
}

/// The pieces that are not empty.
pub open spec fn nonempty(words: Seq<Seq<char>>) -> Seq<Seq<char>> {
    words.filter(|w: Seq<char>| w.len() > 0)
}

/// The words of a text, set off by single spaces.
pub open spec fn collapsed(text: Seq<char>) -> Seq<char> {
    joined(nonempty(pieces(text)))
}

/// A text in lower case with its words set off by single spaces. White space is
/// never alphanumeric, so the words are the runs of letters and numbers.
pub open spec fn normalized(text: Seq<char>) -> Seq<char> {
    collapsed(cleaned(lowercase(text)))
}

/// A text has at least one piece, and no piece holds a space.
pub proof fn pieces_hold_no_space(text: Seq<char>)
    ensures
        pieces(text).len() > 0,
        forall|i: int| 0 <= i < pieces(text).len() ==> !(#[trigger] pieces(text)[i]).contains(' '),
    decreases text.len(),
{
    if text.len() > 0 {
        let front = pieces(text.drop_last());
        pieces_hold_no_space(text.drop_last());
        assert forall|i: int| 0 <= i < pieces(text).len() implies !(#[trigger] pieces(text)[i]).contains(
            ' ',
        ) by {
            let piece = pieces(text)[i];
            if text.last() == ' ' {
                if i < front.len() {
                    assert(piece == front[i]);
                }
            } else if i < front.len() - 1 {
                assert(piece == front[i]);
            } else {
                let grown = front.last();
                assert(piece == grown.push(text.last()));
                if piece.contains(' ') {
                    let j = choose|j: int| 0 <= j < piece.len() && piece[j] == ' ';
                    assert(j < grown.len());
                    assert(grown[j] == ' ');
                    assert(front[front.len() - 1].contains(' '));
                }
            }
        }
    }
}

/// What two texts become when they are set side by side: a space stands between
/// them where both hold something.
pub open spec fn beside(a: Seq<char>, b: Seq<char>) -> Seq<char> {
    if a.len() == 0 {
        b
    } else if b.len() == 0 {
        a
    } else {
        a.push(' ') + b
    }
}

/// A space between two texts parts their pieces.
proof fn lemma_pieces_of_two(a: Seq<char>, b: Seq<char>)
    ensures
        pieces(a.push(' ') + b) == pieces(a) + pieces(b),
    decreases b.len(),
{
    let whole = a.push(' ') + b;
    if b.len() == 0 {
        assert(whole =~= a.push(' '));
        assert(whole.drop_last() =~= a);
        assert(pieces(whole) =~= pieces(a) + pieces(b));
    } else {
        let front = b.drop_last();
        lemma_pieces_of_two(a, front);
        pieces_hold_no_space(front);
        assert(whole.drop_last() =~= a.push(' ') + front);
        assert(whole.last() == b.last());
        assert(pieces(whole) =~= pieces(a) + pieces(b));
    }
}

/// A text without a space is its only piece.
proof fn lemma_one_piece(word: Seq<char>)
    requires
        !word.contains(' '),
    ensures
        pieces(word) == seq![word],
    decreases word.len(),
{
    if word.len() == 0 {
        assert(word =~= Seq::<char>::empty());
    } else {
        let front = word.drop_last();
        assert(!front.contains(' ')) by {
            if front.contains(' ') {
                let i = choose|i: int| 0 <= i < front.len() && front[i] == ' ';
                assert(word[i] == ' ');
            }
        }
        lemma_one_piece(front);
        assert(word[word.len() - 1] == word.last());
        assert(front.push(word.last()) =~= word);
        assert(pieces(word) =~= seq![word]);
    }
}

/// Words that hold no space are the pieces of what they are joined to.
proof fn lemma_pieces_of_joined(words: Seq<Seq<char>>)
    requires
        words.len() > 0,
        forall|i: int| 0 <= i < words.len() ==> !(#[trigger] words[i]).contains(' '),
    ensures
        pieces(joined(words)) == words,
    decreases words.len(),
{
    assert(!words[words.len() - 1].contains(' '));
    lemma_one_piece(words.last());
    if words.len() == 1 {
        assert(words =~= seq![words[0]]);
    } else {
        let front = words.drop_last();
        assert forall|i: int| 0 <= i < front.len() implies !(#[trigger] front[i]).contains(' ') by {
            assert(front[i] == words[i]);
        }
        lemma_pieces_of_joined(front);
        lemma_pieces_of_two(joined(front), words.last());
        assert(front + seq![words.last()] =~= words);
    }
}

/// What `nonempty` keeps is not empty and was there before, and it keeps a list
/// that has nothing empty as it is.
proof fn lemma_nonempty(words: Seq<Seq<char>>)
    ensures
        forall|i: int|
            0 <= i < nonempty(words).len() ==> (#[trigger] nonempty(words)[i]).len() > 0
                && words.contains(nonempty(words)[i]),
        (forall|i: int| 0 <= i < words.len() ==> (#[trigger] words[i]).len() > 0) ==> nonempty(words)
            == words,
    decreases words.len(),
{
    reveal(Seq::filter);
    if words.len() > 0 {
        let front = words.drop_last();
        let kept = nonempty(front);
        lemma_nonempty(front);
        assert forall|i: int| 0 <= i < nonempty(words).len() implies (
        #[trigger] nonempty(words)[i]).len() > 0 && words.contains(nonempty(words)[i]) by {
            if i < kept.len() {
                assert(nonempty(words)[i] == kept[i]);
                let j = choose|j: int| 0 <= j < front.len() && front[j] == kept[i];
                assert(words[j] == kept[i]);
            } else {
                assert(words[words.len() - 1] == words.last());
            }
        }
        if forall|i: int| 0 <= i < words.len() ==> (#[trigger] words[i]).len() > 0 {
            assert forall|i: int| 0 <= i < front.len() implies (#[trigger] front[i]).len() > 0 by {
                assert(front[i] == words[i]);
            }
            assert(words[words.len() - 1].len() > 0);
            assert(front.push(words.last()) =~= words);
        }
    } else {
        assert(words =~= Seq::<Seq<char>>::empty());
    }
}

/// The words of a text hold something and no space.
proof fn lemma_words(text: Seq<char>)
    ensures
        forall|i: int|
            0 <= i < nonempty(pieces(text)).len() ==> (#[trigger] nonempty(pieces(text))[i]).len() > 0
                && !nonempty(pieces(text))[i].contains(' '),
{
    pieces_hold_no_space(text);
    lemma_nonempty(pieces(text));
    let words = nonempty(pieces(text));
    assert forall|i: int| 0 <= i < words.len() implies (#[trigger] words[i]).len() > 0
        && !words[i].contains(' ') by {
        let j = choose|j: int| 0 <= j < pieces(text).len() && pieces(text)[j] == words[i];
        assert(!pieces(text)[j].contains(' '));
    }
}

/// Collapsing a text twice is collapsing it once.
pub proof fn collapsing_twice_is_collapsing_once(text: Seq<char>)
    ensures
        collapsed(collapsed(text)) == collapsed(text),
{
    let words = nonempty(pieces(text));
    lemma_words(text);
    if words.len() == 0 {
        let again = nonempty(pieces(collapsed(text)));
        lemma_nonempty(pieces(collapsed(text)));
        if again.len() > 0 {
            assert(again[0].len() > 0);
        }
        assert(again =~= words);
    } else {
        lemma_pieces_of_joined(words);
        lemma_nonempty(words);
    }
}

/// Two lists of words, one after the other, join to what each of them joins to,
/// side by side.
proof fn lemma_joined_of_two(a: Seq<Seq<char>>, b: Seq<Seq<char>>)
    requires
        forall|i: int| 0 <= i < a.len() ==> (#[trigger] a[i]).len() > 0,
        forall|i: int| 0 <= i < b.len() ==> (#[trigger] b[i]).len() > 0,
    ensures
        joined(a + b) == beside(joined(a), joined(b)),
        (joined(a).len() == 0) == (a.len() == 0),
        (joined(b).len() == 0) == (b.len() == 0),
    decreases b.len(),
{
    lemma_joined_holds_something(a);
    lemma_joined_holds_something(b);
    if b.len() == 0 {
        assert(a + b =~= a);
    } else if a.len() == 0 {
        assert(a + b =~= b);
    } else {
        let front = b.drop_last();
        assert forall|i: int| 0 <= i < front.len() implies (#[trigger] front[i]).len() > 0 by {
            assert(front[i] == b[i]);
        }
        lemma_joined_of_two(a, front);
        assert((a + b).drop_last() =~= a + front);
        assert((a + b).last() == b.last());
        if front.len() == 0 {
            assert(a + front =~= a);
            assert(joined(a + b) =~= joined(a).push(' ') + b[0]);
        } else {
            lemma_joined_holds_something(front);
            assert(joined(a + b) =~= joined(a).push(' ') + joined(b));
        }
    }
}

proof fn lemma_joined_holds_something(words: Seq<Seq<char>>)
    requires
        forall|i: int| 0 <= i < words.len() ==> (#[trigger] words[i]).len() > 0,
    ensures
        (joined(words).len() == 0) == (words.len() == 0),
{
    if words.len() > 0 {
        assert(words[words.len() - 1].len() > 0);
    }
}

/// Two texts with a space between them collapse to what each of them collapses to,
/// side by side.
pub proof fn collapsing_goes_part_by_part(a: Seq<char>, b: Seq<char>)
    ensures
        collapsed(a.push(' ') + b) == beside(collapsed(a), collapsed(b)),
{
    lemma_pieces_of_two(a, b);
    lemma_words(a);
    lemma_words(b);
    Seq::filter_distributes_over_add(pieces(a), pieces(b), |w: Seq<char>| w.len() > 0);
    lemma_joined_of_two(nonempty(pieces(a)), nonempty(pieces(b)));
}

/// Only letters, numbers and spaces.
pub open spec fn is_clean(text: Seq<char>) -> bool {
    forall|i: int| 0 <= i < text.len() ==> alphanumeric(#[trigger] text[i]) || text[i] == ' '
}

proof fn lemma_pieces_stay_clean(text: Seq<char>)
    requires
        is_clean(text),
    ensures
        forall|i: int| 0 <= i < pieces(text).len() ==> is_clean(#[trigger] pieces(text)[i]),
    decreases text.len(),
{
    if text.len() > 0 {
        let front = text.drop_last();
        assert forall|i: int| 0 <= i < front.len() implies alphanumeric(#[trigger] front[i])
            || front[i] == ' ' by {
            assert(front[i] == text[i]);
        }
        lemma_pieces_stay_clean(front);
        pieces_hold_no_space(front);
        let before = pieces(front);
        assert(text[text.len() - 1] == text.last());
        assert forall|i: int| 0 <= i < pieces(text).len() implies is_clean(
            #[trigger] pieces(text)[i],
        ) by {
            if text.last() == ' ' {
                if i < before.len() {
                    assert(pieces(text)[i] == before[i]);
                }
            } else if i < before.len() - 1 {
                assert(pieces(text)[i] == before[i]);
            } else {
                assert(is_clean(before[before.len() - 1]));
                assert(pieces(text)[i] == before.last().push(text.last()));
            }
        }
    }
}

proof fn lemma_joined_stays_clean(words: Seq<Seq<char>>)
    requires
        forall|i: int| 0 <= i < words.len() ==> is_clean(#[trigger] words[i]),
    ensures
        is_clean(joined(words)),
    decreases words.len(),
{
    if words.len() > 0 {
        assert(is_clean(words[words.len() - 1]));
        if words.len() > 1 {
            let front = words.drop_last();
            assert forall|i: int| 0 <= i < front.len() implies is_clean(#[trigger] front[i]) by {
                assert(front[i] == words[i]);
            }
            lemma_joined_stays_clean(front);
        }
    }
}

/// A normalized text holds letters, numbers and spaces only, so cleaning it and
/// collapsing it leave it as it is. Normalizing it again leaves it as it is too,
/// where lower case does.
pub proof fn normalizing_settles(text: Seq<char>)
    ensures
        is_clean(normalized(text)),
        cleaned(normalized(text)) == normalized(text),
        collapsed(normalized(text)) == normalized(text),
        lowercase(normalized(text)) == normalized(text) ==> normalized(normalized(text))
            == normalized(text),
{
    let clear = cleaned(lowercase(text));
    let words = nonempty(pieces(clear));
    assert(is_clean(clear));
    lemma_pieces_stay_clean(clear);
    lemma_nonempty(pieces(clear));
    assert forall|i: int| 0 <= i < words.len() implies is_clean(#[trigger] words[i]) by {
        assert(pieces(clear).contains(words[i]));
        let j = choose|j: int| 0 <= j < pieces(clear).len() && pieces(clear)[j] == words[i];
        assert(is_clean(pieces(clear)[j]));
    }
    lemma_joined_stays_clean(words);
    assert(cleaned(normalized(text)) =~= normalized(text));
    collapsing_twice_is_collapsing_once(clear);
}

/// Two texts with a space between them normalize to what each of them normalizes
/// to, side by side, where lower case goes part by part.
pub proof fn normalizing_goes_part_by_part(a: Seq<char>, b: Seq<char>)
    ensures
        lowercase(a.push(' ') + b) == lowercase(a).push(' ') + lowercase(b) ==> normalized(
            a.push(' ') + b,
        ) == beside(normalized(a), normalized(b)),
{
    if lowercase(a.push(' ') + b) == lowercase(a).push(' ') + lowercase(b) {
        let (x, y) = (lowercase(a), lowercase(b));
        assert(cleaned(x.push(' ') + y) =~= cleaned(x).push(' ') + cleaned(y));
        collapsing_goes_part_by_part(cleaned(x), cleaned(y));
    }
}

fn clean(text: &str) -> (out: String)
    ensures
        out@ == cleaned(text@),
{
    let mut out: String = String::new();
    for c in it: text.chars()
        invariant
            it.seq() == text@,
            out@ == cleaned(text@.take(it.index() as int)),
    {
        proof {
            assert(text@.take(it.index() + 1) =~= text@.take(it.index() as int).push(c));
            assert(cleaned(text@.take(it.index() + 1)) =~= cleaned(
                text@.take(it.index() as int),
            ).push(if alphanumeric(c) { c } else { ' ' }));
        }
        out.push(if c.is_alphanumeric() { c } else { ' ' });
    }
    proof {
        assert(text@.take(text@.len() as int) =~= text@);
    }
    out
}

/// Cuts `text` at its spaces.
pub fn split(text: &str) -> (parts: Vec<String>)
    ensures
        texts(parts@) == pieces(text@),
{
    let mut done: Vec<String> = Vec::new();
    let mut cur: String = String::new();
    proof {
        assert(text@.take(0) =~= Seq::<char>::empty());
        assert(texts(done@).push(cur@) =~= pieces(text@.take(0)));
    }
    for c in it: text.chars()
        invariant
            it.seq() == text@,
            texts(done@).push(cur@) == pieces(text@.take(it.index() as int)),
    {
        let ghost seen = text@.take(it.index() as int);
        let ghost before = texts(done@);
        let ghost grown = cur@;
        proof {
            assert(text@.take(it.index() + 1) =~= seen.push(c));
            assert(seen.push(c).drop_last() =~= seen);
            assert(before.push(grown).drop_last() =~= before);
            assert(before.push(grown).last() == grown);
        }
        if c == ' ' {
            done.push(cur);
            cur = String::new();
            proof {
                assert(texts(done@) =~= before.push(grown));
            }
        } else {
            cur.push(c);
        }
    }
    proof {
        assert(text@.take(text@.len() as int) =~= text@);
    }
    let ghost before = texts(done@);
    let ghost grown = cur@;
    done.push(cur);
    proof {
        assert(texts(done@) =~= before.push(grown));
    }
    done
}

fn drop_empty(words: &Vec<String>) -> (kept: Vec<String>)
    ensures
        texts(kept@) == nonempty(texts(words@)),
{
    let mut kept: Vec<String> = Vec::new();
    proof {
        reveal(Seq::filter);
        assert(texts(kept@) =~= nonempty(texts(words@.take(0))));
    }
    for i in 0..words.len()
        invariant
            texts(kept@) == nonempty(texts(words@.take(i as int))),
    {
        let ghost seen = texts(words@.take(i as int));
        let ghost before = texts(kept@);
        proof {
            reveal(Seq::filter);
            assert(texts(words@.take(i + 1)) =~= seen.push(words@[i as int]@));
            assert(seen.push(words@[i as int]@).drop_last() =~= seen);
        }
        if !words[i].as_str().is_empty() {
            kept.push(words[i].clone());
            proof {
                assert(texts(kept@) =~= before.push(words@[i as int]@));
            }
        }
    }
    proof {
        assert(words@.take(words@.len() as int) =~= words@);
    }
    kept
}

fn join(words: &Vec<String>) -> (out: String)
    ensures
        out@ == joined(texts(words@)),
{
    let mut out: String = String::new();
    proof {
        assert(texts(words@.take(0)) =~= Seq::<Seq<char>>::empty());
    }
    for i in 0..words.len()
        invariant
            out@ == joined(texts(words@.take(i as int))),
    {
        let ghost seen = texts(words@.take(i as int));
        proof {
            assert(texts(words@.take(i + 1)) =~= seen.push(words@[i as int]@));
            assert(seen.push(words@[i as int]@).drop_last() =~= seen);
        }
        if i > 0 {
            out.push(' ');
        }
        out.append(words[i].as_str());
        proof {
            assert(out@ =~= joined(texts(words@.take(i + 1))));
        }
    }
    proof {
        assert(words@.take(words@.len() as int) =~= words@);
    }
    out
}

/// Leaves single spaces between the words of a text and none at its ends.
pub fn collapse(text: &str) -> (out: String)
    ensures
        out@ == collapsed(text@),
{
    let words = split(text);
    join(&drop_empty(&words))
}

/// Lower case, letters and numbers only, single spaces between words.
pub fn normalize(text: &str) -> (out: String)
    ensures
        out@ == normalized(text@),
{
    let low = text.to_lowercase();
    let clear = clean(low.as_str());
    collapse(clear.as_str())
}

/// Three words in a row, from the `i`-th on.
pub open spec fn triple(words: Seq<Seq<char>>, i: int) -> Seq<char> {
    words[i].push(' ') + words[i + 1].push(' ') + words[i + 2]
}

/// Every run of three pieces of `text`; a text of fewer pieces is one shingle.
pub open spec fn shingled(text: Seq<char>) -> Seq<Seq<char>> {
    let words = pieces(text);
    if words.len() < 3 {
        seq![text]
    } else {
        Seq::new((words.len() - 2) as nat, |i: int| triple(words, i))
    }
}

/// The three-word shingles of a text.
pub fn shingles(text: &str) -> (out: Vec<String>)
    ensures
        texts(out@) == shingled(text@),
{
    let words = split(text);
    let mut out: Vec<String> = Vec::new();
    if words.len() < 3 {
        out.push(text.to_owned());
        proof {
            assert(texts(out@) =~= seq![text@]);
        }
        return out;
    }
    let ghost parts = texts(words@);
    for i in 0..words.len() - 2
        invariant
            words@.len() >= 3,
            parts == texts(words@),
            texts(out@) == Seq::new(i as nat, |j: int| triple(parts, j)),
    {
        let ghost before = texts(out@);
        let mut shingle: String = words[i].clone();
        shingle.push(' ');
        shingle.append(words[i + 1].as_str());
        shingle.push(' ');
        shingle.append(words[i + 2].as_str());
        proof {
            assert(parts[i as int] == words@[i as int]@);
            assert(parts[i + 1] == words@[i + 1]@);
            assert(parts[i + 2] == words@[i + 2]@);
            assert(shingle@ =~= triple(parts, i as int));
        }
        let ghost added = shingle@;
        out.push(shingle);
        proof {
            assert(texts(out@) =~= before.push(added));
            assert(texts(out@) =~= Seq::new((i + 1) as nat, |j: int| triple(parts, j)));
        }
    }
    out
}

/// `part` stands somewhere inside `whole`.
pub open spec fn occurs_in(part: Seq<char>, whole: Seq<char>) -> bool {
    exists|k: int|
        0 <= k <= whole.len() - part.len() && #[trigger] whole.subrange(k, k + part.len()) == part
}

/// A text stands inside another exactly where that one is made of something, the
/// text, and something more.
pub proof fn containing_is_having_around(part: Seq<char>, whole: Seq<char>)
    ensures
        occurs_in(part, whole) == exists|before: Seq<char>, behind: Seq<char>|
            whole == #[trigger] (before + part + behind),
{
    if occurs_in(part, whole) {
        let k = choose|k: int|
            0 <= k <= whole.len() - part.len() && #[trigger] whole.subrange(k, k + part.len())
                == part;
        let (before, behind) = (whole.take(k), whole.skip(k + part.len()));
        assert(whole =~= before + whole.subrange(k, k + part.len()) + behind);
    }
    if exists|before: Seq<char>, behind: Seq<char>| whole == #[trigger] (before + part + behind) {
        let (before, behind) = choose|before: Seq<char>, behind: Seq<char>|
            whole == #[trigger] (before + part + behind);
        let k = before.len() as int;
        assert(whole.subrange(k, k + part.len()) =~= part);
    }
}

pub(crate) fn characters(text: &str) -> (out: Vec<char>)
    ensures
        out@ == text@,
{
    let mut out: Vec<char> = Vec::new();
    for c in it: text.chars()
        invariant
            it.seq() == text@,
            out@ == text@.take(it.index() as int),
    {
        out.push(c);
        proof {
            assert(text@.take(it.index() + 1) =~= text@.take(it.index() as int).push(c));
        }
    }
    proof {
        assert(text@.take(text@.len() as int) =~= text@);
    }
    out
}

/// Whether `part` stands somewhere inside `whole`; the empty text always does.
pub fn contains(whole: &str, part: &str) -> (found: bool)
    ensures
        found == occurs_in(part@, whole@),
{
    let hay = characters(whole);
    let needle = characters(part);
    if needle.len() > hay.len() {
        return false;
    }
    let size: usize = hay.len();
    let last: usize = size - needle.len();
    let mut k: usize = 0;
    loop
        invariant
            hay@ == whole@,
            needle@ == part@,
            size == hay@.len(),
            last == size - needle@.len(),
            k <= last,
            forall|j: int|
                0 <= j < k ==> #[trigger] whole@.subrange(j, j + part@.len()) != part@,
        decreases last - k,
    {
        let mut n: usize = 0;
        while n < needle.len() && hay[k + n] == needle[n]
            invariant
                n <= needle@.len(),
                size == hay@.len(),
                k + needle@.len() <= size,
                forall|m: int| 0 <= m < n ==> hay@[k + m] == #[trigger] needle@[m],
            decreases needle@.len() - n,
        {
            n = n + 1;
        }
        let ghost window = whole@.subrange(k as int, k + part@.len());
        if n == needle.len() {
            proof {
                assert(window =~= part@);
            }
            return true;
        }
        proof {
            assert(window[n as int] != part@[n as int]);
        }
        if k == last {
            return false;
        }
        k = k + 1;
    }
}

/// The pieces of a text, with a space between each two, make up the text again.
pub proof fn joining_the_pieces_gives_the_text(text: Seq<char>)
    ensures
        joined(pieces(text)) == text,
    decreases text.len(),
{
    if text.len() == 0 {
        assert(joined(pieces(text)) =~= text);
    } else {
        let front = text.drop_last();
        let before = pieces(front);
        joining_the_pieces_gives_the_text(front);
        pieces_hold_no_space(front);
        assert(front.push(text.last()) =~= text);
        if text.last() == ' ' {
            assert(pieces(text).drop_last() =~= before);
            assert(joined(pieces(text)) =~= joined(before).push(' '));
        } else {
            assert(pieces(text).drop_last() =~= before.drop_last());
            assert(joined(pieces(text)) =~= joined(before).push(text.last()));
        }
    }
}

/// Joining puts single spaces between words and nothing else.
pub proof fn joining_adds_single_spaces(words: Seq<Seq<char>>, word: Seq<char>)
    ensures
        joined(Seq::<Seq<char>>::empty()) == Seq::<char>::empty(),
        joined(seq![word]) == word,
        words.len() > 0 ==> joined(words.push(word)) == joined(words) + seq![' '] + word,
{
    assert(words.push(word).drop_last() =~= words);
    if words.len() > 0 {
        assert(joined(words.push(word)) =~= joined(words) + seq![' '] + word);
    }
}

/// A word is left as it is, and a text of spaces alone becomes nothing.
pub proof fn collapsing_keeps_words(word: Seq<char>)
    requires
        !word.contains(' '),
    ensures
        collapsed(word) == word,
        collapsed(seq![' ']) == Seq::<char>::empty(),
{
    lemma_one_piece(word);
    if word.len() > 0 {
        lemma_nonempty(seq![word]);
    } else {
        lemma_nonempty(seq![word]);
        let kept = nonempty(seq![word]);
        if kept.len() > 0 {
            assert(kept[0].len() > 0);
        }
        assert(collapsed(word) =~= word);
    }
    let none = Seq::<char>::empty();
    assert(!none.contains(' '));
    lemma_one_piece(none);
    lemma_nonempty(seq![none]);
    let kept = nonempty(seq![none]);
    if kept.len() > 0 {
        assert(kept[0].len() > 0);
    }
    assert(collapsed(none) =~= none);
    collapsing_goes_part_by_part(none, none);
    assert(none.push(' ') + none =~= seq![' ']);
}

/// Cleaning goes character by character: it keeps letters and numbers where they
/// stand and puts a space for anything else.
pub proof fn cleaning_goes_character_by_character(a: Seq<char>, b: Seq<char>, i: int)
    ensures
        cleaned(a).len() == a.len(),
        cleaned(a + b) == cleaned(a) + cleaned(b),
        0 <= i < a.len() && alphanumeric(a[i]) ==> cleaned(a)[i] == a[i],
        0 <= i < a.len() && !alphanumeric(a[i]) ==> cleaned(a)[i] == ' ',
{
    assert(cleaned(a + b) =~= cleaned(a) + cleaned(b));
}

/// Texts that are the same in lower case have the same normal form, and a text of
/// one clean word in lower case is its own.
pub proof fn normal_forms_ignore_case(a: Seq<char>, b: Seq<char>)
    ensures
        lowercase(a) == lowercase(b) ==> normalized(a) == normalized(b),
        lowercase(a) == a && is_clean(a) && !a.contains(' ') ==> normalized(a) == a,
{
    if lowercase(a) == a && is_clean(a) && !a.contains(' ') {
        assert(cleaned(a) =~= a);
        collapsing_keeps_words(a);
    }
}

/// A text of at least three words has a shingle for every three in a row, and a text
/// of fewer is its only shingle.
pub proof fn shingles_are_three_words_in_a_row(words: Seq<Seq<char>>)
    requires
        words.len() > 0,
        forall|i: int| 0 <= i < words.len() ==> !(#[trigger] words[i]).contains(' '),
    ensures
        words.len() < 3 ==> shingled(joined(words)) == seq![joined(words)],
        words.len() >= 3 ==> shingled(joined(words)).len() + 2 == words.len(),
        forall|i: int|
            0 <= i && i + 2 < words.len() ==> #[trigger] shingled(joined(words))[i] == joined(
                seq![words[i], words[i + 1], words[i + 2]],
            ),
{
    lemma_pieces_of_joined(words);
    assert forall|i: int| 0 <= i && i + 2 < words.len() implies #[trigger] shingled(
        joined(words),
    )[i] == joined(seq![words[i], words[i + 1], words[i + 2]]) by {
        let three = seq![words[i], words[i + 1], words[i + 2]];
        let two = seq![words[i], words[i + 1]];
        let one = seq![words[i]];
        assert(three.drop_last() =~= two);
        assert(two.drop_last() =~= one);
        assert(joined(one) == words[i]);
        assert(joined(two) == joined(one).push(' ') + words[i + 1]);
        assert(joined(three) == joined(two).push(' ') + words[i + 2]);
        assert(joined(three) =~= triple(words, i));
    }
}

} // verus!

//! Which generators the stored probes came from.

use serde_json::Value;
use vstd::prelude::*;
use vstd::string::*;

use crate::overlap::lemma_set_after_push;
use crate::text::characters;
use crate::text::texts;

verus! {

/// `serde_json::Value`, a parsed JSON document.
#[verifier::external_type_specification]
#[verifier::external_body]
pub struct ExValue(Value);

/// What a JSON value holds by name: the members of an object that are strings.
/// Nothing, where the value is no object.
pub uninterp spec fn string_members(value: Value) -> Map<Seq<char>, Seq<char>>;

/// The string members of the JSON document that a text is, if it is one.
pub uninterp spec fn parsed_members(text: Seq<char>) -> Option<Map<Seq<char>, Seq<char>>>;

/// `serde_json::from_str`: whether a text is a JSON document, and what its
/// string members are, is a function of the text.
#[verifier::external_body]
fn parse(text: &str) -> (value: Option<Value>)
    ensures
        match value {
            Some(v) => parsed_members(text@) == Some(string_members(v)),
            None => parsed_members(text@) is None,
        },
{
    serde_json::from_str::<Value>(text).ok()
}

/// `Value::get` by a name and `Value::as_str` of what is found: the member of
/// that name, where the value is an object that has one and it is a string.
#[verifier::external_body]
fn string_member<'a>(value: &'a Value, name: &str) -> (member: Option<&'a str>)
    ensures
        match member {
            Some(s) => string_members(*value).contains_key(name@) && s@ == string_members(
                *value,
            )[name@],
            None => !string_members(*value).contains_key(name@),
        },
{
    value.get(name).and_then(Value::as_str)
}

/// The generator that a provenance record names.
pub open spec fn generator_of(provenance: Seq<char>) -> Option<Seq<char>> {
    match parsed_members(provenance) {
        Some(members) => if members.contains_key("generator"@) {
            Some(members["generator"@])
        } else {
            None
        },
        None => None,
    }
}

/// The generators that a list of records names, record by record.
pub open spec fn named_generators(provenances: Seq<Seq<char>>) -> Seq<Seq<char>>
    decreases provenances.len(),
{
    if provenances.len() == 0 {
        Seq::empty()
    } else {
        let front = named_generators(provenances.drop_last());
        match generator_of(provenances.last()) {
            Some(generator) => front.push(generator),
            None => front,
        }
    }
}

/// `a` comes before `b` as words do in a dictionary, by the numbers of their
/// characters.
pub open spec fn text_less(a: Seq<char>, b: Seq<char>) -> bool
    decreases a.len(),
{
    if b.len() == 0 {
        false
    } else if a.len() == 0 {
        true
    } else if a[0] != b[0] {
        a[0] < b[0]
    } else {
        text_less(a.drop_first(), b.drop_first())
    }
}

proof fn lemma_text_order(a: Seq<char>, b: Seq<char>)
    ensures
        !(text_less(a, b) && text_less(b, a)),
        text_less(a, b) || text_less(b, a) || a == b,
        a == b ==> !text_less(a, b),
    decreases a.len(),
{
    if a.len() == 0 || b.len() == 0 {
        if a.len() == 0 && b.len() == 0 {
            assert(a =~= b);
        }
    } else if a[0] == b[0] {
        lemma_text_order(a.drop_first(), b.drop_first());
        assert(a =~= seq![a[0]] + a.drop_first());
        assert(b =~= seq![b[0]] + b.drop_first());
    }
}

proof fn lemma_text_less_chains(a: Seq<char>, b: Seq<char>, c: Seq<char>)
    requires
        text_less(a, b),
        text_less(b, c),
    ensures
        text_less(a, c),
    decreases a.len(),
{
    if a.len() > 0 && a[0] == b[0] && b[0] == c[0] {
        lemma_text_less_chains(a.drop_first(), b.drop_first(), c.drop_first());
    }
}

fn precedes(a: &str, b: &str) -> (less: bool)
    ensures
        less == text_less(a@, b@),
{
    let x = characters(a);
    let y = characters(b);
    let mut i: usize = 0;
    proof {
        assert(a@.skip(0) =~= a@);
        assert(b@.skip(0) =~= b@);
    }
    while i < x.len() && i < y.len()
        invariant
            x@ == a@,
            y@ == b@,
            i <= x@.len(),
            i <= y@.len(),
            text_less(a@, b@) == text_less(a@.skip(i as int), b@.skip(i as int)),
        decreases x@.len() - i,
    {
        proof {
            assert(a@.skip(i as int).drop_first() =~= a@.skip(i + 1));
            assert(b@.skip(i as int).drop_first() =~= b@.skip(i + 1));
        }
        if x[i] != y[i] {
            return x[i] < y[i];
        }
        i = i + 1;
    }
    i < y.len()
}

/// The texts stand in strict dictionary order, so none occurs twice.
pub open spec fn strictly_increasing(list: Seq<Seq<char>>) -> bool {
    forall|i: int, j: int|
        #![trigger list[i], list[j]]
        0 <= i < j < list.len() ==> text_less(list[i], list[j])
}

/// Sorts a list and drops its repetitions.
pub fn sort_dedup(list: &Vec<String>) -> (out: Vec<String>)
    ensures
        strictly_increasing(texts(out@)),
        texts(out@).to_set() == texts(list@).to_set(),
{
    let mut out: Vec<String> = Vec::new();
    proof {
        assert(texts(out@).to_set() =~= texts(list@.take(0)).to_set());
    }
    for n in 0..list.len()
        invariant
            strictly_increasing(texts(out@)),
            texts(out@).to_set() == texts(list@.take(n as int)).to_set(),
    {
        let ghost item = list@[n as int]@;
        let ghost before = texts(out@);
        let ghost seen = texts(list@.take(n as int));
        let mut p: usize = out.len();
        while p > 0 && precedes(list[n].as_str(), out[p - 1].as_str())
            invariant
                n < list@.len(),
                item == list@[n as int]@,
                before == texts(out@),
                p <= out@.len(),
                forall|i: int| p <= i < before.len() ==> text_less(item, #[trigger] before[i]),
            decreases p,
        {
            p = p - 1;
        }
        proof {
            assert(texts(list@.take(n + 1)) =~= seen.push(item));
            lemma_set_after_push(seen, item);
        }
        if p > 0 && out[p - 1] == list[n] {
            proof {
                assert(before[p - 1] == item);
                assert(before.contains(item));
                assert(before.to_set() =~= seen.push(item).to_set());
            }
        } else {
            out.insert(p, list[n].clone());
            proof {
                let now = texts(out@);
                assert(now =~= before.insert(p as int, item));
                if p > 0 {
                    assert(!text_less(item, before[p - 1]));
                    lemma_text_order(item, before[p - 1]);
                }
                assert forall|i: int, j: int|
                    #![trigger now[i], now[j]]
                    0 <= i < j < now.len() implies text_less(now[i], now[j]) by {
                    if i == p {
                        assert(now[j] == before[j - 1]);
                    } else if j == p {
                        assert(now[i] == before[i]);
                        if i < p - 1 {
                            assert(text_less(before[i], before[p - 1]));
                            lemma_text_less_chains(before[i], before[p - 1], item);
                        }
                    } else {
                        let oi = if i < p { i } else { i - 1 };
                        let oj = if j < p { j } else { j - 1 };
                        assert(now[i] == before[oi] && now[j] == before[oj]);
                    }
                }
                assert forall|t: Seq<char>| now.to_set().contains(t)
                    == before.to_set().insert(item).contains(t) by {
                    if before.contains(t) {
                        let i = choose|i: int| 0 <= i < before.len() && before[i] == t;
                        let k = if i < p { i } else { i + 1 };
                        assert(now[k] == t);
                    }
                    assert(now[p as int] == item);
                    if now.contains(t) && t != item {
                        let k = choose|k: int| 0 <= k < now.len() && now[k] == t;
                        let i = if k < p { k } else { k - 1 };
                        assert(before[i] == t);
                    }
                }
                assert(now.to_set() =~= before.to_set().insert(item));
            }
        }
    }
    proof {
        assert(list@.take(list@.len() as int) =~= list@);
    }
    out
}

/// The generators of the stored probes, each once, in order. A record that is no
/// JSON document or names no generator is passed over.
pub fn probe_generators(provenances: &Vec<String>) -> (generators: Vec<String>)
    ensures
        strictly_increasing(texts(generators@)),
        texts(generators@).to_set() == named_generators(texts(provenances@)).to_set(),
{
    let mut found: Vec<String> = Vec::new();
    proof {
        assert(texts(found@) =~= named_generators(texts(provenances@.take(0))));
    }
    for i in 0..provenances.len()
        invariant
            texts(found@) == named_generators(texts(provenances@.take(i as int))),
    {
        let ghost before = texts(found@);
        let ghost seen = texts(provenances@.take(i as int));
        proof {
            assert(texts(provenances@.take(i + 1)) =~= seen.push(provenances@[i as int]@));
            assert(seen.push(provenances@[i as int]@).drop_last() =~= seen);
        }
        if let Some(value) = parse(provenances[i].as_str()) {
            if let Some(generator) = string_member(&value, "generator") {
                found.push(generator.to_owned());
                proof {
                    assert(texts(found@) =~= before.push(generator@));
                }
            }
        }
    }
    proof {
        assert(provenances@.take(provenances@.len() as int) =~= provenances@);
    }
    sort_dedup(&found)
}

/// A sorted list without repetitions is decided by what it contains.
pub proof fn increasing_lists_are_decided_by_their_texts(a: Seq<Seq<char>>, b: Seq<Seq<char>>)
    requires
        strictly_increasing(a),
        strictly_increasing(b),
        a.to_set() == b.to_set(),
    ensures
        a == b,
    decreases a.len(),
{
    if a.len() == 0 {
        if b.len() > 0 {
            assert(b.to_set().contains(b[0]));
        }
        assert(a =~= b);
    } else if b.len() == 0 {
        assert(a.to_set().contains(a[0]));
    } else {
        let (x, y) = (a.last(), b.last());
        assert(a.to_set().contains(x) && b.to_set().contains(y));
        let i = choose|i: int| 0 <= i < b.len() && b[i] == x;
        let j = choose|j: int| 0 <= j < a.len() && a[j] == y;
        if i < b.len() - 1 && j < a.len() - 1 {
            assert(text_less(b[i], b[b.len() - 1]));
            assert(text_less(a[j], a[a.len() - 1]));
            lemma_text_order(x, y);
        }
        if i == b.len() - 1 {
            assert(x == y);
        } else {
            assert(j == a.len() - 1 ==> x == y);
        }
        lemma_text_order(x, x);
        let (fa, fb) = (a.drop_last(), b.drop_last());
        assert(a =~= fa.push(x));
        assert(b =~= fb.push(y));
        lemma_set_after_push(fa, x);
        lemma_set_after_push(fb, y);
        assert(!fa.contains(x)) by {
            if fa.contains(x) {
                let k = choose|k: int| 0 <= k < fa.len() && fa[k] == x;
                assert(text_less(a[k], a[a.len() - 1]));
            }
        }
        assert(!fb.contains(x)) by {
            if fb.contains(x) {
                let k = choose|k: int| 0 <= k < fb.len() && fb[k] == x;
                assert(text_less(b[k], b[b.len() - 1]));
            }
        }
        assert(fa.to_set() =~= a.to_set().remove(x));
        assert(fb.to_set() =~= b.to_set().remove(x));
        assert forall|p: int, q: int|
            #![trigger fa[p], fa[q]]
            0 <= p < q < fa.len() implies text_less(fa[p], fa[q]) by {
            assert(fa[p] == a[p] && fa[q] == a[q]);
        }
        assert forall|p: int, q: int|
            #![trigger fb[p], fb[q]]
            0 <= p < q < fb.len() implies text_less(fb[p], fb[q]) by {
            assert(fb[p] == b[p] && fb[q] == b[q]);
        }
        increasing_lists_are_decided_by_their_texts(fa, fb);
    }
}

/// Dictionary order: nothing comes before itself, a beginning comes before the
/// whole, and where two texts first differ the smaller character decides.
pub proof fn texts_go_by_their_first_difference(
    start: Seq<char>,
    x: char,
    y: char,
    a: Seq<char>,
    b: Seq<char>,
)
    ensures
        !text_less(start, start),
        text_less(start, start.push(x) + a),
        !text_less(start.push(x) + a, start),
        x != y ==> text_less(start.push(x) + a, start.push(y) + b) == (x < y),
    decreases start.len(),
{
    let (s, t) = (start.push(x) + a, start.push(y) + b);
    if start.len() > 0 {
        let rest = start.drop_first();
        texts_go_by_their_first_difference(rest, x, y, a, b);
        assert(s[0] == start[0] && t[0] == start[0]);
        assert(s.drop_first() =~= rest.push(x) + a);
        assert(t.drop_first() =~= rest.push(y) + b);
    } else {
        assert(s[0] == x && t[0] == y);
    }
}

/// A generator is named exactly where one of the records is a JSON document whose
/// member `generator` is that text.
pub proof fn generators_are_those_that_records_name(provenances: Seq<Seq<char>>, g: Seq<char>)
    ensures
        named_generators(provenances).contains(g) <==> exists|i: int|
            0 <= i < provenances.len() && parsed_members(#[trigger] provenances[i]) is Some
                && parsed_members(provenances[i])->0.contains_key("generator"@) && parsed_members(
                provenances[i],
            )->0["generator"@] == g,
    decreases provenances.len(),
{
    if provenances.len() > 0 {
        let front = provenances.drop_last();
        let last = provenances.len() - 1;
        let (before, now) = (named_generators(front), named_generators(provenances));
        generators_are_those_that_records_name(front, g);
        if before.contains(g) {
            let i = choose|i: int|
                0 <= i < front.len() && parsed_members(#[trigger] front[i]) is Some
                    && parsed_members(front[i])->0.contains_key("generator"@) && parsed_members(
                    front[i],
                )->0["generator"@] == g;
            assert(provenances[i] == front[i]);
            let k = choose|k: int| 0 <= k < before.len() && before[k] == g;
            assert(now[k] == g);
        }
        assert(provenances[last] == provenances.last());
        if now.contains(g) && !before.contains(g) {
            let k = choose|k: int| 0 <= k < now.len() && now[k] == g;
            if k < before.len() {
                assert(before[k] == g);
            }
            assert(generator_of(provenances[last]) == Some(g));
        }
        if exists|i: int|
            0 <= i < provenances.len() && parsed_members(#[trigger] provenances[i]) is Some
                && parsed_members(provenances[i])->0.contains_key("generator"@) && parsed_members(
                provenances[i],
            )->0["generator"@] == g {
            let i = choose|i: int|
                0 <= i < provenances.len() && parsed_members(#[trigger] provenances[i]) is Some
                    && parsed_members(provenances[i])->0.contains_key("generator"@)
                    && parsed_members(provenances[i])->0["generator"@] == g;
            if i < last {
                assert(front[i] == provenances[i]);
                assert(before.contains(g));
            } else {
                assert(generator_of(provenances[last]) == Some(g));
                assert(now[before.len() as int] == g);
            }
        }
    }
}

/// The list of generators holds a text exactly where a record names it, and holds it
/// once.
pub proof fn generators_are_listed_once(list: Seq<Seq<char>>, provenances: Seq<Seq<char>>, g: Seq<char>)
    requires
        strictly_increasing(list),
        list.to_set() == named_generators(provenances).to_set(),
    ensures
        list.contains(g) <==> exists|i: int|
            0 <= i < provenances.len() && parsed_members(#[trigger] provenances[i]) is Some
                && parsed_members(provenances[i])->0.contains_key("generator"@) && parsed_members(
                provenances[i],
            )->0["generator"@] == g,
        list.no_duplicates(),
        forall|i: int, j: int|
            #![trigger list[i], list[j]]
            0 <= i < j < list.len() ==> text_less(list[i], list[j]),
{
    generators_are_those_that_records_name(provenances, g);
    assert(list.to_set().contains(g) == list.contains(g));
    assert(named_generators(provenances).to_set().contains(g) == named_generators(
        provenances,
    ).contains(g));
    assert forall|i: int, j: int| 0 <= i < j < list.len() implies list[i] != list[j] by {
        lemma_text_order(list[i], list[j]);
    }
}

} // verus!

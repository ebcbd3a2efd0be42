//! JSON documents as plain values, and the few things asked of them.

use vstd::prelude::*;

use crate::number;
use crate::text;

verus! {

/// A JSON value. Numbers with a fraction are the bits of a double.
#[derive(Debug, PartialEq, Eq)]
pub enum Json {
    Null,
    Bool(bool),
    Unsigned(u64),
    Negative(i64),
    Real(u64),
    Text(String),
    List(Vec<Json>),
    Record(Vec<(String, Json)>),
}

/// What a JSON value says: the order of an object's keys is nothing, and of
/// two entries under one key the later counts.
pub ghost enum Tree {
    Null,
    Bool(bool),
    Unsigned(u64),
    Negative(i64),
    Real(u64),
    Text(Seq<char>),
    List(Seq<Tree>),
    Record(Map<Seq<char>, Tree>),
}

impl Json {
    /// What the value says. Bits that are no number say nothing, and a whole
    /// number that is not negative says the same either way.
    pub open spec fn tree(self) -> Tree
        decreases self,
    {
        match self {
            Json::Null => Tree::Null,
            Json::Bool(b) => Tree::Bool(b),
            Json::Unsigned(n) => Tree::Unsigned(n),
            Json::Negative(n) => if n < 0 {
                Tree::Negative(n)
            } else {
                Tree::Unsigned(n as u64)
            },
            Json::Real(bits) => if number::finite(bits) {
                Tree::Real(bits)
            } else {
                Tree::Null
            },
            Json::Text(words) => Tree::Text(words@),
            Json::List(items) => Tree::List(trees(items@)),
            Json::Record(entries) => Tree::Record(record(entries@)),
        }
    }
}

pub open spec fn trees(items: Seq<Json>) -> Seq<Tree>
    decreases items,
{
    if items.len() == 0 {
        seq![]
    } else {
        trees(items.drop_last()).push(items.last().tree())
    }
}

pub open spec fn record(entries: Seq<(String, Json)>) -> Map<Seq<char>, Tree>
    decreases entries,
{
    if entries.len() == 0 {
        map![]
    } else {
        record(entries.drop_last()).insert(entries.last().0@, entries.last().1.tree())
    }
}

impl View for Json {
    type V = Tree;

    open spec fn view(&self) -> Tree {
        self.tree()
    }
}

/// The value under `key`, when this is an object that has one.
pub open spec fn entry(tree: Tree, key: Seq<char>) -> Option<Tree> {
    match tree {
        Tree::Record(entries) => if entries.contains_key(key) {
            Some(entries[key])
        } else {
            None
        },
        _ => None,
    }
}

pub open spec fn text_of(tree: Tree) -> Option<Seq<char>> {
    match tree {
        Tree::Text(words) => Some(words),
        _ => None,
    }
}

pub open spec fn number_of(tree: Tree) -> Option<u64> {
    match tree {
        Tree::Unsigned(n) => Some(n),
        _ => None,
    }
}

pub open spec fn flag_of(tree: Tree) -> Option<bool> {
    match tree {
        Tree::Bool(b) => Some(b),
        _ => None,
    }
}

pub open spec fn list_of(tree: Tree) -> Option<Seq<Tree>> {
    match tree {
        Tree::List(items) => Some(items),
        _ => None,
    }
}

/// Any number, as the bits of the double nearest it.
pub open spec fn real_of(tree: Tree) -> Option<u64> {
    match tree {
        Tree::Real(bits) => Some(bits),
        Tree::Unsigned(n) => Some(number::whole(n)),
        Tree::Negative(n) => Some(
            (0x8000_0000_0000_0000 + number::whole((-n) as u64)) as u64,
        ),
        _ => None,
    }
}

pub open spec fn text_at(tree: Tree, key: Seq<char>) -> Option<Seq<char>> {
    match entry(tree, key) {
        Some(value) => text_of(value),
        None => None,
    }
}

pub open spec fn number_at(tree: Tree, key: Seq<char>) -> Option<u64> {
    match entry(tree, key) {
        Some(value) => number_of(value),
        None => None,
    }
}

pub open spec fn flag_at(tree: Tree, key: Seq<char>) -> Option<bool> {
    match entry(tree, key) {
        Some(value) => flag_of(value),
        None => None,
    }
}

pub open spec fn list_at(tree: Tree, key: Seq<char>) -> Option<Seq<Tree>> {
    match entry(tree, key) {
        Some(value) => list_of(value),
        None => None,
    }
}

pub open spec fn real_at(tree: Tree, key: Seq<char>) -> Option<u64> {
    match entry(tree, key) {
        Some(value) => real_of(value),
        None => None,
    }
}

/// An item says what its place in the list says.
pub proof fn trees_are_items(items: Seq<Json>)
    ensures
        trees(items).len() == items.len(),
        forall|i: int| 0 <= i < items.len() ==> #[trigger] trees(items)[i] == items[i]@,
    decreases items.len(),
{
    if items.len() > 0 {
        trees_are_items(items.drop_last());
        assert forall|i: int| 0 <= i < items.len() implies #[trigger] trees(items)[i]
            == items[i]@ by {
            if i < items.len() - 1 {
                assert(trees(items)[i] == trees(items.drop_last())[i]);
            }
        }
    }
}

/// The last entry under a key is what the object has there.
pub proof fn record_has(entries: Seq<(String, Json)>, at: int)
    requires
        0 <= at < entries.len(),
        forall|i: int| at < i < entries.len() ==> (#[trigger] entries[i]).0@ != entries[at].0@,
    ensures
        record(entries).contains_key(entries[at].0@),
        record(entries)[entries[at].0@] == entries[at].1@,
    decreases entries.len(),
{
    if at < entries.len() - 1 {
        assert(entries.drop_last()[at] == entries[at]);
        assert forall|i: int| at < i < entries.drop_last().len() implies (
        #[trigger] entries.drop_last()[i]).0@ != entries[at].0@ by {
            assert(entries.drop_last()[i] == entries[i]);
        }
        record_has(entries.drop_last(), at);
        assert(entries.last().0@ != entries[at].0@);
    }
}

pub proof fn record_lacks(entries: Seq<(String, Json)>, key: Seq<char>)
    requires
        forall|i: int| 0 <= i < entries.len() ==> (#[trigger] entries[i]).0@ != key,
    ensures
        !record(entries).contains_key(key),
    decreases entries.len(),
{
    if entries.len() > 0 {
        assert forall|i: int| 0 <= i < entries.drop_last().len() implies (
        #[trigger] entries.drop_last()[i]).0@ != key by {
            assert(entries.drop_last()[i] == entries[i]);
        }
        record_lacks(entries.drop_last(), key);
        assert(entries.last() == entries[entries.len() - 1]);
    }
}

impl Json {
    /// The value under `key`, when this is an object that has one.
    pub fn get(&self, key: &str) -> (r: Option<&Json>)
        ensures
            match r {
                Some(value) => entry(self@, key@) == Some(value@),
                None => entry(self@, key@) is None,
            },
            r matches Some(value) ==> decreases_to!(self => value),
    {
        match self {
            Json::Record(entries) => {
                let mut i: usize = entries.len();
                while i > 0
                    invariant
                        i <= entries@.len(),
                        self matches Json::Record(held) && held == *entries,
                        forall|j: int| i <= j < entries@.len() ==> (#[trigger] entries@[j]).0@ != key@,
                    decreases i,
                {
                    if text::same(entries[i - 1].0.as_str(), key) {
                        proof {
                            record_has(entries@, i - 1);
                            assert(decreases_to!(self => entries));
                            assert(decreases_to!(entries => entries@));
                            assert(decreases_to!(entries@ => entries@[i - 1]));
                            assert(decreases_to!(entries@[i - 1] => entries@[i - 1].1));
                        }
                        return Some(&entries[i - 1].1);
                    }
                    i = i - 1;
                }
                proof {
                    record_lacks(entries@, key@);
                }
                None
            },
            _ => None,
        }
    }

    pub fn as_str(&self) -> (r: Option<&str>)
        ensures
            match r {
                Some(words) => text_of(self@) == Some(words@),
                None => text_of(self@) is None,
            },
    {
        match self {
            Json::Text(words) => Some(words.as_str()),
            _ => None,
        }
    }

    pub fn as_u64(&self) -> (r: Option<u64>)
        ensures
            r == number_of(self@),
    {
        match self {
            Json::Unsigned(n) => Some(*n),
            Json::Negative(n) => if *n >= 0 {
                Some(*n as u64)
            } else {
                None
            },
            _ => None,
        }
    }

    pub fn as_bool(&self) -> (r: Option<bool>)
        ensures
            r == flag_of(self@),
    {
        match self {
            Json::Bool(b) => Some(*b),
            _ => None,
        }
    }

    pub fn as_list(&self) -> (r: Option<&Vec<Json>>)
        ensures
            match r {
                Some(items) => list_of(self@) == Some(trees(items@)),
                None => list_of(self@) is None,
            },
            r matches Some(items) ==> decreases_to!(self => items),
    {
        match self {
            Json::List(items) => Some(items),
            _ => None,
        }
    }

    pub fn as_record(&self) -> (r: Option<&Vec<(String, Json)>>)
        ensures
            match r {
                Some(entries) => self@ == Tree::Record(record(entries@)),
                None => !(self@ is Record),
            },
    {
        match self {
            Json::Record(entries) => Some(entries),
            _ => None,
        }
    }

    /// Any number, as the bits of the double nearest it.
    pub fn as_real(&self) -> (r: Option<u64>)
        ensures
            r == real_of(self@),
            r matches Some(bits) ==> number::finite(bits),
    {
        match self {
            Json::Real(bits) => if number::is_finite(*bits) {
                Some(*bits)
            } else {
                None
            },
            Json::Unsigned(n) => Some(number::double_of_whole(*n)),
            Json::Negative(n) => {
                if *n >= 0 {
                    Some(number::double_of_whole(*n as u64))
                } else {
                    let size: u64 = (-(*n + 1)) as u64 + 1;
                    assert(size == -n);
                    Some(0x8000_0000_0000_0000 + number::double_of_whole(size))
                }
            },
            _ => None,
        }
    }

    pub fn text_at(&self, key: &str) -> (r: Option<&str>)
        ensures
            match r {
                Some(words) => text_at(self@, key@) == Some(words@),
                None => text_at(self@, key@) is None,
            },
    {
        match self.get(key) {
            Some(value) => value.as_str(),
            None => None,
        }
    }

    pub fn number_at(&self, key: &str) -> (r: Option<u64>)
        ensures
            r == number_at(self@, key@),
    {
        match self.get(key) {
            Some(value) => value.as_u64(),
            None => None,
        }
    }

    pub fn flag_at(&self, key: &str) -> (r: Option<bool>)
        ensures
            r == flag_at(self@, key@),
    {
        match self.get(key) {
            Some(value) => value.as_bool(),
            None => None,
        }
    }

    pub fn list_at(&self, key: &str) -> (r: Option<&Vec<Json>>)
        ensures
            match r {
                Some(items) => list_at(self@, key@) == Some(trees(items@)),
                None => list_at(self@, key@) is None,
            },
    {
        match self.get(key) {
            Some(value) => value.as_list(),
            None => None,
        }
    }

    pub fn real_at(&self, key: &str) -> (r: Option<u64>)
        ensures
            r == real_at(self@, key@),
    {
        match self.get(key) {
            Some(value) => value.as_real(),
            None => None,
        }
    }
}

/// serde_json's own JSON value.
#[verifier::external_type_specification]
#[verifier::external_body]
pub struct ExValue(serde_json::Value);

/// What a `serde_json::Value` holds.
pub uninterp spec fn tree_of(value: serde_json::Value) -> Tree;

/// What `serde_json::from_str` makes of a text: the value it holds, or the
/// error's own words.
pub uninterp spec fn json_of(text: Seq<char>) -> Result<Tree, Seq<char>>;

/// What `serde_json::to_string_pretty` writes for a value.
pub uninterp spec fn pretty_of(tree: Tree) -> Seq<char>;

/// One level of a `serde_json::Value`.
enum Part {
    Null,
    Bool(bool),
    Unsigned(u64),
    Negative(i64),
    Real(u64),
    Text(String),
    List(Vec<serde_json::Value>),
    Record(Vec<(String, serde_json::Value)>),
}

spec fn trees_of(items: Seq<serde_json::Value>) -> Seq<Tree> {
    Seq::new(items.len(), |i: int| tree_of(items[i]))
}

spec fn record_of(entries: Seq<(String, serde_json::Value)>) -> Map<Seq<char>, Tree>
    decreases entries.len(),
{
    if entries.len() == 0 {
        map![]
    } else {
        record_of(entries.drop_last()).insert(entries.last().0@, tree_of(entries.last().1))
    }
}

/// Whether no key occurs twice.
spec fn distinct(entries: Seq<(String, serde_json::Value)>) -> bool {
    forall|i: int, j: int|
        0 <= i < j < entries.len() ==> (#[trigger] entries[i]).0@ != (#[trigger] entries[j]).0@
}

proof fn record_of_holds(entries: Seq<(String, serde_json::Value)>, at: int)
    requires
        distinct(entries),
        0 <= at < entries.len(),
    ensures
        record_of(entries).contains_key(entries[at].0@),
        record_of(entries)[entries[at].0@] == tree_of(entries[at].1),
        record_of(entries).dom().finite(),
    decreases entries.len(),
{
    let before = entries.drop_last();
    assert forall|i: int, j: int| 0 <= i < j < before.len() implies (#[trigger] before[i]).0@ != (
    #[trigger] before[j]).0@ by {
        assert(before[i] == entries[i] && before[j] == entries[j]);
    }
    if at < entries.len() - 1 {
        assert(before[at] == entries[at]);
        record_of_holds(before, at);
        assert(entries.last() == entries[entries.len() - 1]);
    } else {
        record_of_finite(before);
    }
}

proof fn record_of_finite(entries: Seq<(String, serde_json::Value)>)
    ensures
        record_of(entries).dom().finite(),
    decreases entries.len(),
{
    if entries.len() > 0 {
        record_of_finite(entries.drop_last());
    }
}

impl Part {
    spec fn tree(self) -> Tree {
        match self {
            Part::Null => Tree::Null,
            Part::Bool(b) => Tree::Bool(b),
            Part::Unsigned(n) => Tree::Unsigned(n),
            Part::Negative(n) => if n < 0 {
                Tree::Negative(n)
            } else {
                Tree::Unsigned(n as u64)
            },
            Part::Real(bits) => Tree::Real(bits),
            Part::Text(words) => Tree::Text(words@),
            Part::List(items) => Tree::List(trees_of(items@)),
            Part::Record(entries) => Tree::Record(record_of(entries@)),
        }
    }
}

/// `serde_json::from_str` into a `Value`: the value the text holds, or the
/// error's own words; which, is a function of the text.
#[verifier::external_body]
fn read_value(text: &str) -> (r: Result<serde_json::Value, String>)
    ensures
        match r {
            Ok(value) => json_of(text@) == Ok::<Tree, Seq<char>>(tree_of(value)),
            Err(error) => json_of(text@) == Err::<Tree, Seq<char>>(error@),
        },
{
    serde_json::from_str::<serde_json::Value>(text).map_err(|error| error.to_string())
}

/// A `serde_json::Value` taken apart, one level: its variant and fields. A
/// number is one that fits `u64`, one below zero that fits `i64`, or the bits
/// of a finite double; an object has each key once.
#[verifier::external_body]
fn opened(value: serde_json::Value) -> (part: Part)
    ensures
        part.tree() == tree_of(value),
        part matches Part::Real(bits) ==> number::finite(bits),
        part matches Part::Negative(n) ==> n < 0,
        part matches Part::Record(entries) ==> distinct(entries@),
{
    match value {
        serde_json::Value::Null => Part::Null,
        serde_json::Value::Bool(b) => Part::Bool(b),
        serde_json::Value::Number(n) => match (n.as_u64(), n.as_i64()) {
            (Some(n), _) => Part::Unsigned(n),
            (_, Some(n)) => Part::Negative(n),
            _ => Part::Real(n.as_f64().unwrap_or_default().to_bits()),
        },
        serde_json::Value::String(words) => Part::Text(words),
        serde_json::Value::Array(items) => Part::List(items),
        serde_json::Value::Object(map) => Part::Record(map.into_iter().collect()),
    }
}

/// A `serde_json::Value` put together, one level, from all but a number with
/// a fraction. Of two entries under one key, the later is kept.
#[verifier::external_body]
fn built(part: Part) -> (value: serde_json::Value)
    requires
        !(part is Real),
    ensures
        tree_of(value) == part.tree(),
{
    match part {
        Part::Null | Part::Real(_) => serde_json::Value::Null,
        Part::Bool(b) => serde_json::Value::Bool(b),
        Part::Unsigned(n) => serde_json::Value::from(n),
        Part::Negative(n) => serde_json::Value::from(n),
        Part::Text(words) => serde_json::Value::String(words),
        Part::List(items) => serde_json::Value::Array(items),
        Part::Record(entries) => serde_json::Value::Object(entries.into_iter().collect()),
    }
}

/// `serde_json::Number::from_f64` of a number read by `str::parse`: written
/// down exactly, a finite double is read back as itself.
#[verifier::external_body]
fn real_value(text: &str) -> (value: serde_json::Value)
    ensures
        forall|bits: u64|
            number::finite(bits) && text@ == #[trigger] number::exact_decimal(bits) ==> tree_of(
                value,
            ) == Tree::Real(bits),
{
    let number = text.parse().ok().and_then(serde_json::Number::from_f64);
    number.map_or(serde_json::Value::Null, serde_json::Value::Number)
}

/// Whether nothing in `tree` is nested deeper than `levels`.
pub open spec fn shallow(tree: Tree, levels: nat) -> bool
    decreases levels,
{
    match tree {
        Tree::List(items) => levels > 0 && forall|i: int|
            0 <= i < items.len() ==> shallow(#[trigger] items[i], (levels - 1) as nat),
        Tree::Record(entries) => levels > 0 && forall|key: Seq<char>|
            entries.contains_key(key) ==> shallow(#[trigger] entries[key], (levels - 1) as nat),
        _ => true,
    }
}

/// Whether `text` is JSON, and says `tree`.
pub open spec fn says(text: Seq<char>, tree: Tree) -> bool {
    json_of(text) == Ok::<Tree, Seq<char>>(tree)
}

/// `serde_json::to_string_pretty` of a `Value`. Writing to a string does not
/// fail; what is written is a function of what the value holds, and — nested
/// within the reader's limit — is read back as it was.
#[verifier::external_body]
fn pretty_value(value: &serde_json::Value) -> (r: Result<String, String>)
    ensures
        match r {
            Ok(text) => text@ == pretty_of(tree_of(*value)) && (shallow(tree_of(*value), 100)
                ==> says(text@, tree_of(*value))),
            Err(_) => false,
        },
{
    serde_json::to_string_pretty(value).map_err(|error| error.to_string())
}

/// A `serde_json::Value` as a plain value.
fn plain(value: serde_json::Value) -> (json: Json)
    ensures
        json@ == tree_of(value),
    decreases tree_of(value),
{
    let ghost tree = tree_of(value);
    match opened(value) {
        Part::Null => Json::Null,
        Part::Bool(b) => Json::Bool(b),
        Part::Unsigned(n) => Json::Unsigned(n),
        Part::Negative(n) => Json::Negative(n),
        Part::Real(bits) => Json::Real(bits),
        Part::Text(words) => Json::Text(words),
        Part::List(items) => {
            let ghost all = items@;
            let ghost held = trees_of(all);
            let mut out: Vec<Json> = Vec::new();
            for item in iter: items
                invariant
                    iter.seq() == all,
                    tree == tree_of(value),
                    tree == Tree::List(held),
                    held == trees_of(all),
                    trees(out@) == held.take(iter.index() as int),
            {
                let ghost sofar = out@;
                let ghost i = iter.index() as int;
                proof {
                    assert(item == all[i]);
                    assert(held[i] == tree_of(item));
                    assert(decreases_to!(tree => tree->List_0));
                    assert(decreases_to!(held => held[i]));
                }
                out.push(plain(item));
                proof {
                    assert(out@.drop_last() =~= sofar);
                    assert(held.take(i + 1) =~= held.take(i).push(held[i]));
                }
            }
            assert(held.take(held.len() as int) =~= held);
            Json::List(out)
        },
        Part::Record(entries) => {
            let ghost all = entries@;
            let mut out: Vec<(String, Json)> = Vec::new();
            assert(record_of(all.take(0)) =~= map![]);
            assert(record(out@) =~= map![]);
            for pair in iter: entries
                invariant
                    iter.seq() == all,
                    tree == tree_of(value),
                    distinct(all),
                    tree == Tree::Record(record_of(all)),
                    record(out@) == record_of(all.take(iter.index() as int)),
            {
                let ghost sofar = out@;
                let ghost i = iter.index() as int;
                let (key, item) = pair;
                proof {
                    record_of_holds(all, i);
                    assert(decreases_to!(tree => tree->Record_0));
                    assert(decreases_to!(tree->Record_0 => tree->Record_0[all[i].0@]));
                }
                out.push((key, plain(item)));
                proof {
                    assert(out@.drop_last() =~= sofar);
                    assert(all.take(i + 1).drop_last() =~= all.take(i));
                }
            }
            assert(all.take(all.len() as int) =~= all);
            Json::Record(out)
        },
    }
}

/// A plain value as a `serde_json::Value`.
fn valued(json: &Json) -> (value: serde_json::Value)
    ensures
        tree_of(value) == json@,
    decreases json,
{
    match json {
        Json::Null => built(Part::Null),
        Json::Bool(b) => built(Part::Bool(*b)),
        Json::Unsigned(n) => built(Part::Unsigned(*n)),
        Json::Negative(n) => built(Part::Negative(*n)),
        Json::Real(bits) => {
            if number::is_finite(*bits) {
                real_value(number::exact_text(*bits).as_str())
            } else {
                built(Part::Null)
            }
        },
        Json::Text(words) => built(Part::Text(words.clone())),
        Json::List(items) => {
            let mut out: Vec<serde_json::Value> = Vec::new();
            let mut i: usize = 0;
            while i < items.len()
                invariant
                    i <= items@.len(),
                    json matches Json::List(held) && held == *items,
                    trees_of(out@) =~= trees(items@.take(i as int)),
                    i == out@.len(),
                decreases items@.len() - i,
            {
                proof {
                    assert(decreases_to!(json => items));
                    assert(decreases_to!(items => items@));
                    assert(decreases_to!(items@ => items@[i as int]));
                    assert(items@.take(i + 1).drop_last() =~= items@.take(i as int));
                }
                out.push(valued(&items[i]));
                i = i + 1;
            }
            assert(items@.take(i as int) =~= items@);
            built(Part::List(out))
        },
        Json::Record(entries) => {
            let mut out: Vec<(String, serde_json::Value)> = Vec::new();
            let mut i: usize = 0;
            assert(record_of(out@) =~= map![]);
            assert(record(entries@.take(0)) =~= map![]);
            while i < entries.len()
                invariant
                    i <= entries@.len(),
                    json matches Json::Record(held) && held == *entries,
                    record_of(out@) == record(entries@.take(i as int)),
                decreases entries@.len() - i,
            {
                proof {
                    assert(decreases_to!(json => entries));
                    assert(decreases_to!(entries => entries@));
                    assert(decreases_to!(entries@ => entries@[i as int]));
                    assert(decreases_to!(entries@[i as int] => entries@[i as int].1));
                    assert(entries@.take(i + 1).drop_last() =~= entries@.take(i as int));
                }
                let ghost sofar = out@;
                let value = valued(&entries[i].1);
                out.push((entries[i].0.clone(), value));
                assert(out@.drop_last() =~= sofar);
                i = i + 1;
            }
            assert(entries@.take(i as int) =~= entries@);
            built(Part::Record(out))
        },
    }
}

/// Reads a JSON text.
pub fn parse(text: &str) -> (r: Result<Json, String>)
    ensures
        match r {
            Ok(json) => says(text@, json@),
            Err(error) => json_of(text@) == Err::<Tree, Seq<char>>(error@),
        },
{
    match read_value(text) {
        Ok(value) => Ok(plain(value)),
        Err(error) => Err(error),
    }
}

/// Writes a JSON text, indented.
pub fn pretty(json: &Json) -> (text: String)
    ensures
        text@ == pretty_of(json@),
        shallow(json@, 100) ==> says(text@, json@),
{
    let value = valued(json);
    match pretty_value(&value) {
        Ok(text) => text,
        Err(_) => "{}".to_owned(),
    }
}

/// Adds an entry to an object being put together.
pub fn put(entries: &mut Vec<(String, Json)>, key: &str, value: Json)
    ensures
        record(final(entries)@) == record(old(entries)@).insert(key@, value@),
{
    let ghost before = entries@;
    entries.push((key.to_owned(), value));
    assert(entries@.drop_last() =~= before);
}

/// The whole numbers that a list holds, when it holds nothing else.
pub open spec fn numbers_in(items: Seq<Tree>) -> Option<Seq<u64>>
    decreases items.len(),
{
    if items.len() == 0 {
        Some(seq![])
    } else {
        match (numbers_in(items.drop_last()), number_of(items.last())) {
            (Some(before), Some(n)) => Some(before.push(n)),
            _ => None,
        }
    }
}

pub open spec fn numbers_of(tree: Tree) -> Option<Seq<u64>> {
    match list_of(tree) {
        Some(items) => numbers_in(items),
        None => None,
    }
}

proof fn numbers_missing(items: Seq<Tree>, upto: int)
    requires
        0 <= upto <= items.len(),
        numbers_in(items.take(upto)) is None,
    ensures
        numbers_in(items) is None,
    decreases items.len() - upto,
{
    if upto < items.len() {
        assert(items.take(upto + 1).drop_last() =~= items.take(upto));
        numbers_missing(items, upto + 1);
    } else {
        assert(items.take(upto) =~= items);
    }
}

impl Json {
    /// The whole numbers in this list, when it is one and holds nothing else.
    pub fn as_numbers(&self) -> (r: Option<Vec<u64>>)
        ensures
            match r {
                Some(numbers) => numbers_of(self@) == Some(numbers@),
                None => numbers_of(self@) is None,
            },
    {
        match self {
            Json::List(items) => {
                let mut numbers: Vec<u64> = Vec::new();
                let mut i: usize = 0;
                proof {
                    trees_are_items(items@);
                    assert(trees(items@).take(0) =~= seq![]);
                    assert(numbers@ =~= seq![]);
                }
                while i < items.len()
                    invariant
                        i <= items@.len(),
                        trees(items@).len() == items@.len(),
                        forall|j: int| 0 <= j < items@.len() ==> #[trigger] trees(items@)[j] == items@[j]@,
                        self@ == Tree::List(trees(items@)),
                        numbers_in(trees(items@).take(i as int)) == Some(numbers@),
                    decreases items@.len() - i,
                {
                    let ghost all = trees(items@);
                    assert(all.take(i + 1).drop_last() =~= all.take(i as int));
                    assert(all[i as int] == items@[i as int]@);
                    match items[i].as_u64() {
                        Some(n) => numbers.push(n),
                        None => {
                            proof {
                                numbers_missing(all, i + 1);
                            }
                            return None;
                        },
                    }
                    i = i + 1;
                }
                assert(trees(items@).take(i as int) =~= trees(items@));
                Some(numbers)
            },
            _ => None,
        }
    }

    /// A list of whole numbers.
    pub fn of_numbers(numbers: &Vec<u64>) -> (json: Json)
        ensures
            json@ == number_list(numbers@),
    {
        let mut items: Vec<Json> = Vec::new();
        let mut i: usize = 0;
        while i < numbers.len()
            invariant
                i <= numbers@.len(),
                i == items@.len(),
                forall|j: int| 0 <= j < i ==> (#[trigger] items@[j])@ == Tree::Unsigned(numbers@[j]),
            decreases numbers@.len() - i,
        {
            items.push(Json::Unsigned(numbers[i]));
            i = i + 1;
        }
        proof {
            trees_are_items(items@);
            assert(trees(items@) =~= Seq::new(numbers@.len(), |i: int| Tree::Unsigned(numbers@[i])));
        }
        Json::List(items)
    }
}

pub open spec fn number_list(numbers: Seq<u64>) -> Tree {
    Tree::List(Seq::new(numbers.len(), |i: int| Tree::Unsigned(numbers[i])))
}

/// A list of whole numbers is read as it was written.
pub proof fn numbers_read_back(numbers: Seq<u64>)
    ensures
        numbers_of(number_list(numbers)) == Some(numbers),
    decreases numbers.len(),
{
    let items = Seq::new(numbers.len(), |i: int| Tree::Unsigned(numbers[i]));
    if numbers.len() > 0 {
        let before = numbers.drop_last();
        numbers_read_back(before);
        assert(items.drop_last() =~= Seq::new(before.len(), |i: int| Tree::Unsigned(before[i])));
        assert(before.push(numbers.last()) =~= numbers);
    } else {
        assert(items =~= seq![]);
        assert(numbers =~= seq![]);
    }
}

/// A whole number that a signed 64-bit one can hold.
pub open spec fn signed_of(tree: Tree) -> Option<i64> {
    match tree {
        Tree::Unsigned(n) => if n <= i64::MAX {
            Some(n as i64)
        } else {
            None
        },
        Tree::Negative(n) => Some(n),
        _ => None,
    }
}

pub open spec fn signed_at(tree: Tree, key: Seq<char>) -> Option<i64> {
    match entry(tree, key) {
        Some(value) => signed_of(value),
        None => None,
    }
}

impl Json {
    pub fn as_i64(&self) -> (r: Option<i64>)
        ensures
            r == signed_of(self@),
    {
        match self {
            Json::Unsigned(n) => if *n <= i64::MAX as u64 {
                Some(*n as i64)
            } else {
                None
            },
            Json::Negative(n) => Some(*n),
            _ => None,
        }
    }

    pub fn signed_at(&self, key: &str) -> (r: Option<i64>)
        ensures
            r == signed_at(self@, key@),
    {
        match self.get(key) {
            Some(value) => value.as_i64(),
            None => None,
        }
    }

    pub fn is_record(&self) -> (r: bool)
        ensures
            r == (self@ is Record),
    {
        match self {
            Json::Record(_) => true,
            _ => false,
        }
    }
}

/// An object without one entry says the same of every other key.
proof fn record_without(entries: Seq<(String, Json)>, at: int)
    requires
        0 <= at < entries.len(),
    ensures
        record(entries.remove(at)).remove(entries[at].0@) =~= record(entries).remove(
            entries[at].0@,
        ),
    decreases entries.len(),
{
    if at < entries.len() - 1 {
        assert(entries.remove(at).drop_last() =~= entries.drop_last().remove(at));
        assert(entries.drop_last()[at] == entries[at]);
        record_without(entries.drop_last(), at);
        assert(entries.remove(at).last() == entries.last());
        let key = entries[at].0@;
        let last = entries.last();
        let fewer = record(entries.drop_last().remove(at));
        let all = record(entries.drop_last());
        assert forall|k: Seq<char>| k != key implies #[trigger] fewer.contains_key(k)
            == all.contains_key(k) && (fewer.contains_key(k) ==> fewer[k] == all[k]) by {
            assert(fewer.remove(key).contains_key(k) == fewer.contains_key(k));
            assert(all.remove(key).contains_key(k) == all.contains_key(k));
            if fewer.contains_key(k) {
                assert(fewer.remove(key)[k] == fewer[k]);
                assert(all.remove(key)[k] == all[k]);
            }
        }
        let one = fewer.insert(last.0@, last.1@).remove(key);
        let other = all.insert(last.0@, last.1@).remove(key);
        assert forall|k: Seq<char>| one.contains_key(k) == other.contains_key(k) by {
            if k != key && k != last.0@ {
                assert(fewer.contains_key(k) == all.contains_key(k));
            }
        }
        assert forall|k: Seq<char>| one.contains_key(k) implies one[k] == other[k] by {
            if k != last.0@ {
                assert(fewer.contains_key(k));
            }
        }
        assert(one =~= other);
    } else {
        let last = entries.last();
        let all = record(entries.drop_last());
        assert(all.insert(last.0@, last.1@).remove(last.0@) =~= all.remove(last.0@));
        assert(entries.remove(at) =~= entries.drop_last());
    }
}

/// Takes what an object has under `key` out of it.
pub fn take(entries: &mut Vec<(String, Json)>, key: &str) -> (r: Option<Json>)
    ensures
        record(final(entries)@) == record(old(entries)@).remove(key@),
        match r {
            Some(value) => record(old(entries)@).contains_key(key@) && record(old(entries)@)[key@]
                == value@,
            None => !record(old(entries)@).contains_key(key@),
        },
{
    let ghost all = entries@;
    let mut taken: Option<Json> = None;
    let mut i: usize = entries.len();
    while i > 0
        invariant
            i <= entries@.len(),
            all == old(entries)@,
            forall|j: int| i <= j < entries@.len() ==> (#[trigger] entries@[j]).0@ != key@,
            record(entries@).remove(key@) == record(all).remove(key@),
            match taken {
                Some(value) => record(all).contains_key(key@) && record(all)[key@] == value@,
                None => entries@ == all,
            },
        decreases i,
    {
        i = i - 1;
        if text::same(entries[i].0.as_str(), key) {
            let ghost before = entries@;
            if taken.is_none() {
                proof {
                    record_has(all, i as int);
                }
                let (_, value) = entries.remove(i);
                taken = Some(value);
            } else {
                entries.remove(i);
            }
            proof {
                record_without(before, i as int);
                assert forall|j: int| i <= j < entries@.len() implies (
                #[trigger] entries@[j]).0@ != key@ by {
                    assert(entries@[j] == before[j + 1]);
                }
            }
        }
    }
    proof {
        record_lacks(entries@, key@);
        assert(record(entries@).remove(key@) =~= record(entries@));
        if taken is None {
            assert(record(all).remove(key@) =~= record(all));
        }
    }
    taken
}

/// **A value is read as what it is**: a number without a sign as any kind of
/// number, one below nothing not as a count, and nothing else as a number; a
/// key that is not there says nothing.
pub proof fn a_value_is_read_as_what_it_is(n: u64, m: i64, words: Seq<char>, yes: bool)
    requires
        m < 0,
    ensures
        number_of(Tree::Unsigned(n)) == Some(n),
        signed_of(Tree::Unsigned(n)) == (if n <= 0x7fff_ffff_ffff_ffff {
            Some(n as i64)
        } else {
            None
        }),
        signed_of(Tree::Negative(m)) == Some(m),
        number_of(Tree::Negative(m)) is None,
        real_of(Tree::Unsigned(n)) == Some(number::whole(n)),
        number_of(Tree::Text(words)) is None && signed_of(Tree::Text(words)) is None && real_of(
            Tree::Text(words),
        ) is None,
        text_of(Tree::Text(words)) == Some(words) && text_of(Tree::Unsigned(n)) is None,
        flag_of(Tree::Bool(yes)) == Some(yes) && flag_of(Tree::Unsigned(n)) is None,
        number_of(Tree::Bool(yes)) is None && text_of(Tree::Null) is None && list_of(Tree::Null)
            is None,
{
}

} // verus!

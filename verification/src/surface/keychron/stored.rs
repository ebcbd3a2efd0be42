//! A snapshot on file: what waits for the app that died before handing the
//! keyboard back.

use vstd::prelude::*;

use super::protocol::{EffectSlot, Hsv};
use super::session::{Remembered, Snapshot};
use crate::json::{
    Json, Tree, entry, json_of, list_at, number_at, number_list, numbers_of,
    numbers_read_back, parse, pretty, pretty_of, put, record, says, shallow, trees,
    trees_are_items,
};

verus! {

pub open spec fn slot_numbers(slot: EffectSlot) -> Seq<u64> {
    seq![
        slot.effect as u64,
        slot.hue as u64,
        slot.sat as u64,
        slot.speed as u64,
        slot.time_ms as u64,
    ]
}

pub open spec fn slot_list(slots: Seq<EffectSlot>) -> Tree {
    Tree::List(Seq::new(slots.len(), |i: int| number_list(slot_numbers(slots[i]))))
}

pub open spec fn colour_numbers(colour: (u8, Hsv)) -> Seq<u64> {
    seq![colour.0 as u64, colour.1.h as u64, colour.1.s as u64, colour.1.v as u64]
}

pub open spec fn colour_list(colours: Seq<(u8, Hsv)>) -> Tree {
    Tree::List(Seq::new(colours.len(), |i: int| number_list(colour_numbers(colours[i]))))
}

pub open spec fn region_numbers(regions: Seq<u8>) -> Seq<u64> {
    Seq::new(regions.len(), |i: int| regions[i] as u64)
}

/// A snapshot as it is filed.
pub open spec fn filed(kept: Remembered) -> Tree {
    Tree::Record(
        map![
            "effect"@ => Tree::Unsigned(kept.effect as u64),
            "brightness"@ => Tree::Unsigned(kept.brightness as u64),
            "speed"@ => Tree::Unsigned(kept.speed as u64),
            "hue"@ => Tree::Unsigned(kept.hue as u64),
            "sat"@ => Tree::Unsigned(kept.sat as u64),
            "per_key_type"@ => Tree::Unsigned(kept.per_key_type as u64),
            "colours"@ => colour_list(kept.colours),
            "regions"@ => number_list(region_numbers(kept.regions)),
            "ambient"@ => slot_list(kept.ambient),
            "ours"@ => slot_list(kept.ours),
        ],
    )
}

fn slots_json(slots: &Vec<EffectSlot>) -> (json: Json)
    ensures
        json@ == slot_list(slots@),
{
    let mut items: Vec<Json> = Vec::new();
    let mut i: usize = 0;
    while i < slots.len()
        invariant
            i <= slots@.len(),
            i == items@.len(),
            forall|j: int|
                0 <= j < i ==> (#[trigger] items@[j])@ == number_list(slot_numbers(slots@[j])),
        decreases slots@.len() - i,
    {
        let slot = slots[i];
        let numbers: Vec<u64> = vec![
            slot.effect as u64,
            slot.hue as u64,
            slot.sat as u64,
            slot.speed as u64,
            slot.time_ms as u64,
        ];
        assert(numbers@ =~= slot_numbers(slot));
        items.push(Json::of_numbers(&numbers));
        i = i + 1;
    }
    proof {
        trees_are_items(items@);
        assert(trees(items@) =~= Seq::new(
            slots@.len(),
            |i: int| number_list(slot_numbers(slots@[i])),
        ));
    }
    Json::List(items)
}

fn colours_json(colours: &Vec<(u8, Hsv)>) -> (json: Json)
    ensures
        json@ == colour_list(colours@),
{
    let mut items: Vec<Json> = Vec::new();
    let mut i: usize = 0;
    while i < colours.len()
        invariant
            i <= colours@.len(),
            i == items@.len(),
            forall|j: int|
                0 <= j < i ==> (#[trigger] items@[j])@ == number_list(colour_numbers(colours@[j])),
        decreases colours@.len() - i,
    {
        let (led, hsv): (u8, Hsv) = colours[i];
        let numbers: Vec<u64> = vec![led as u64, hsv.h as u64, hsv.s as u64, hsv.v as u64];
        assert(numbers@ =~= colour_numbers(colours@[i as int]));
        items.push(Json::of_numbers(&numbers));
        i = i + 1;
    }
    proof {
        trees_are_items(items@);
        assert(trees(items@) =~= Seq::new(
            colours@.len(),
            |i: int| number_list(colour_numbers(colours@[i])),
        ));
    }
    Json::List(items)
}

/// A slot from its five numbers, each cut to its field.
pub open spec fn slot_from(tree: Tree) -> Option<EffectSlot> {
    match numbers_of(tree) {
        Some(fields) => if fields.len() == 5 {
            Some(
                EffectSlot {
                    effect: (fields[0] % 256) as u8,
                    hue: (fields[1] % 256) as u8,
                    sat: (fields[2] % 256) as u8,
                    speed: (fields[3] % 256) as u8,
                    time_ms: (fields[4] % 0x1_0000_0000) as u32,
                },
            )
        } else {
            None
        },
        None => None,
    }
}

/// A colour from its four numbers, each cut to its field.
pub open spec fn colour_from(tree: Tree) -> Option<(u8, Hsv)> {
    match numbers_of(tree) {
        Some(fields) => if fields.len() == 4 {
            Some(
                (
                    (fields[0] % 256) as u8,
                    Hsv {
                        h: (fields[1] % 256) as u8,
                        s: (fields[2] % 256) as u8,
                        v: (fields[3] % 256) as u8,
                    },
                ),
            )
        } else {
            None
        },
        None => None,
    }
}

pub open spec fn slots_from(items: Seq<Tree>) -> Option<Seq<EffectSlot>>
    decreases items.len(),
{
    if items.len() == 0 {
        Some(seq![])
    } else {
        match (slots_from(items.drop_last()), slot_from(items.last())) {
            (Some(before), Some(slot)) => Some(before.push(slot)),
            _ => None,
        }
    }
}

pub open spec fn colours_from(items: Seq<Tree>) -> Option<Seq<(u8, Hsv)>>
    decreases items.len(),
{
    if items.len() == 0 {
        Some(seq![])
    } else {
        match (colours_from(items.drop_last()), colour_from(items.last())) {
            (Some(before), Some(colour)) => Some(before.push(colour)),
            _ => None,
        }
    }
}

/// The byte under `key`, or what is said when there is none.
pub open spec fn byte_at(tree: Tree, key: Seq<char>) -> Result<u8, Seq<char>> {
    match number_at(tree, key) {
        Some(n) => if n < 256 {
            Ok(n as u8)
        } else {
            Err("missing "@ + key)
        },
        None => Err("missing "@ + key),
    }
}

/// The slots under `key`, or what is said when there are none.
pub open spec fn slots_at(tree: Tree, key: Seq<char>) -> Result<Seq<EffectSlot>, Seq<char>> {
    match list_at(tree, key) {
        Some(items) => match slots_from(items) {
            Some(slots) => Ok(slots),
            None => Err("bad slot"@),
        },
        None => Err("missing "@ + key),
    }
}

pub open spec fn colours_at(tree: Tree) -> Result<Seq<(u8, Hsv)>, Seq<char>> {
    match list_at(tree, "colours"@) {
        Some(items) => match colours_from(items) {
            Some(colours) => Ok(colours),
            None => Err("bad colour"@),
        },
        None => Err("missing colours"@),
    }
}

pub open spec fn regions_at(tree: Tree) -> Result<Seq<u8>, Seq<char>> {
    match entry(tree, "regions"@) {
        Some(value) => match numbers_of(value) {
            Some(numbers) => Ok(Seq::new(numbers.len(), |i: int| (numbers[i] % 256) as u8)),
            None => Err("missing regions"@),
        },
        None => Err("missing regions"@),
    }
}

/// What the file remembers, or the first thing wrong with it. Strict: a
/// snapshot that does not parse is not something to restore from.
pub open spec fn recalled(tree: Tree) -> Result<Remembered, Seq<char>> {
    if !(tree is Record) {
        Err("not an object"@)
    } else {
        match colours_at(tree) {
            Err(error) => Err(error),
            Ok(colours) => match regions_at(tree) {
                Err(error) => Err(error),
                Ok(regions) => match byte_at(tree, "effect"@) {
                    Err(error) => Err(error),
                    Ok(effect) => match byte_at(tree, "brightness"@) {
                        Err(error) => Err(error),
                        Ok(brightness) => match byte_at(tree, "speed"@) {
                            Err(error) => Err(error),
                            Ok(speed) => match byte_at(tree, "hue"@) {
                                Err(error) => Err(error),
                                Ok(hue) => match byte_at(tree, "sat"@) {
                                    Err(error) => Err(error),
                                    Ok(sat) => match byte_at(tree, "per_key_type"@) {
                                        Err(error) => Err(error),
                                        Ok(per_key_type) => match slots_at(tree, "ambient"@) {
                                            Err(error) => Err(error),
                                            Ok(ambient) => match slots_at(tree, "ours"@) {
                                                Err(error) => Err(error),
                                                Ok(ours) => Ok(
                                                    Remembered {
                                                        effect,
                                                        brightness,
                                                        speed,
                                                        hue,
                                                        sat,
                                                        per_key_type,
                                                        colours,
                                                        regions,
                                                        ambient,
                                                        ours,
                                                    },
                                                ),
                                            },
                                        },
                                    },
                                },
                            },
                        },
                    },
                },
            },
        }
    }
}

fn missing(key: &str) -> (error: String)
    ensures
        error@ == "missing "@ + key@,
{
    let mut error = "missing ".to_owned();
    error.push_str(key);
    error
}

fn byte_under(root: &Json, key: &str) -> (r: Result<u8, String>)
    ensures
        match r {
            Ok(byte) => byte_at(root@, key@) == Ok::<u8, Seq<char>>(byte),
            Err(error) => byte_at(root@, key@) == Err::<u8, Seq<char>>(error@),
        },
{
    match root.number_at(key) {
        Some(n) => if n < 256 {
            Ok(n as u8)
        } else {
            Err(missing(key))
        },
        None => Err(missing(key)),
    }
}

proof fn slots_missing(items: Seq<Tree>, upto: int)
    requires
        0 <= upto <= items.len(),
        slots_from(items.take(upto)) is None,
    ensures
        slots_from(items) is None,
    decreases items.len() - upto,
{
    if upto < items.len() {
        assert(items.take(upto + 1).drop_last() =~= items.take(upto));
        slots_missing(items, upto + 1);
    } else {
        assert(items.take(upto) =~= items);
    }
}

proof fn colours_missing(items: Seq<Tree>, upto: int)
    requires
        0 <= upto <= items.len(),
        colours_from(items.take(upto)) is None,
    ensures
        colours_from(items) is None,
    decreases items.len() - upto,
{
    if upto < items.len() {
        assert(items.take(upto + 1).drop_last() =~= items.take(upto));
        colours_missing(items, upto + 1);
    } else {
        assert(items.take(upto) =~= items);
    }
}

fn slots_under(root: &Json, key: &str) -> (r: Result<Vec<EffectSlot>, String>)
    ensures
        match r {
            Ok(slots) => slots_at(root@, key@) == Ok::<Seq<EffectSlot>, Seq<char>>(slots@),
            Err(error) => slots_at(root@, key@) == Err::<Seq<EffectSlot>, Seq<char>>(error@),
        },
{
    let items = match root.list_at(key) {
        Some(items) => items,
        None => return Err(missing(key)),
    };
    let ghost all = trees(items@);
    let mut slots: Vec<EffectSlot> = Vec::new();
    let mut i: usize = 0;
    proof {
        trees_are_items(items@);
        assert(all.take(0) =~= seq![]);
        assert(slots@ =~= seq![]);
    }
    while i < items.len()
        invariant
            i <= items@.len(),
            all == trees(items@),
            all.len() == items@.len(),
            list_at(root@, key@) == Some(all),
            forall|j: int| 0 <= j < items@.len() ==> #[trigger] all[j] == items@[j]@,
            slots_from(all.take(i as int)) == Some(slots@),
        decreases items@.len() - i,
    {
        assert(all.take(i + 1).drop_last() =~= all.take(i as int));
        assert(all[i as int] == items@[i as int]@);
        let read: Option<EffectSlot> = match items[i].as_numbers() {
            Some(fields) => if fields.len() == 5 {
                Some(
                    EffectSlot {
                        effect: (fields[0] % 256) as u8,
                        hue: (fields[1] % 256) as u8,
                        sat: (fields[2] % 256) as u8,
                        speed: (fields[3] % 256) as u8,
                        time_ms: (fields[4] % 0x1_0000_0000) as u32,
                    },
                )
            } else {
                None
            },
            None => None,
        };
        match read {
            Some(slot) => slots.push(slot),
            None => {
                proof {
                    slots_missing(all, i + 1);
                }
                return Err("bad slot".to_owned());
            },
        }
        i = i + 1;
    }
    assert(all.take(i as int) =~= all);
    Ok(slots)
}

fn colours_under(root: &Json) -> (r: Result<Vec<(u8, Hsv)>, String>)
    ensures
        match r {
            Ok(colours) => colours_at(root@) == Ok::<Seq<(u8, Hsv)>, Seq<char>>(colours@),
            Err(error) => colours_at(root@) == Err::<Seq<(u8, Hsv)>, Seq<char>>(error@),
        },
{
    let items = match root.list_at("colours") {
        Some(items) => items,
        None => return Err("missing colours".to_owned()),
    };
    let ghost all = trees(items@);
    let mut colours: Vec<(u8, Hsv)> = Vec::new();
    let mut i: usize = 0;
    proof {
        trees_are_items(items@);
        assert(all.take(0) =~= seq![]);
        assert(colours@ =~= seq![]);
    }
    while i < items.len()
        invariant
            i <= items@.len(),
            all == trees(items@),
            all.len() == items@.len(),
            list_at(root@, "colours"@) == Some(all),
            forall|j: int| 0 <= j < items@.len() ==> #[trigger] all[j] == items@[j]@,
            colours_from(all.take(i as int)) == Some(colours@),
        decreases items@.len() - i,
    {
        assert(all.take(i + 1).drop_last() =~= all.take(i as int));
        assert(all[i as int] == items@[i as int]@);
        let read: Option<(u8, Hsv)> = match items[i].as_numbers() {
            Some(fields) => if fields.len() == 4 {
                Some(
                    (
                        (fields[0] % 256) as u8,
                        Hsv {
                            h: (fields[1] % 256) as u8,
                            s: (fields[2] % 256) as u8,
                            v: (fields[3] % 256) as u8,
                        },
                    ),
                )
            } else {
                None
            },
            None => None,
        };
        match read {
            Some(colour) => colours.push(colour),
            None => {
                proof {
                    colours_missing(all, i + 1);
                }
                return Err("bad colour".to_owned());
            },
        }
        i = i + 1;
    }
    assert(all.take(i as int) =~= all);
    Ok(colours)
}

fn regions_under(root: &Json) -> (r: Result<Vec<u8>, String>)
    ensures
        match r {
            Ok(regions) => regions_at(root@) == Ok::<Seq<u8>, Seq<char>>(regions@),
            Err(error) => regions_at(root@) == Err::<Seq<u8>, Seq<char>>(error@),
        },
{
    let numbers = match root.get("regions") {
        Some(value) => match value.as_numbers() {
            Some(numbers) => numbers,
            None => return Err("missing regions".to_owned()),
        },
        None => return Err("missing regions".to_owned()),
    };
    let mut regions: Vec<u8> = Vec::new();
    let mut i: usize = 0;
    while i < numbers.len()
        invariant
            i <= numbers@.len(),
            regions@ =~= Seq::new(i as nat, |j: int| (numbers@[j] % 256) as u8),
        decreases numbers@.len() - i,
    {
        regions.push((numbers[i] % 256) as u8);
        i = i + 1;
    }
    Ok(regions)
}

impl Snapshot {
    pub fn to_json(&self) -> (text: String)
        ensures
            text@ == pretty_of(filed(self@)),
            says(text@, filed(self@)),
    {
        let mut root: Vec<(String, Json)> = Vec::new();
        put(&mut root, "effect", Json::Unsigned(self.effect as u64));
        put(&mut root, "brightness", Json::Unsigned(self.brightness as u64));
        put(&mut root, "speed", Json::Unsigned(self.speed as u64));
        put(&mut root, "hue", Json::Unsigned(self.hue as u64));
        put(&mut root, "sat", Json::Unsigned(self.sat as u64));
        put(&mut root, "per_key_type", Json::Unsigned(self.per_key_type as u64));
        put(&mut root, "colours", colours_json(&self.colours));
        let mut regions: Vec<u64> = Vec::new();
        let mut i: usize = 0;
        while i < self.regions.len()
            invariant
                i <= self.regions@.len(),
                regions@ =~= region_numbers(self.regions@.take(i as int)),
            decreases self.regions@.len() - i,
        {
            regions.push(self.regions[i] as u64);
            i = i + 1;
        }
        assert(self.regions@.take(i as int) =~= self.regions@);
        put(&mut root, "regions", Json::of_numbers(&regions));
        put(&mut root, "ambient", slots_json(&self.ambient));
        put(&mut root, "ours", slots_json(&self.ours));
        assert(record(root@) == filed(self@)->Record_0);
        proof {
            a_filed_snapshot_is_shallow(self@);
        }
        pretty(&Json::Record(root))
    }

    /// Strict, unlike the settings file: a snapshot that does not parse is
    /// not something to restore from.
    pub fn parse(text: &str) -> (r: Result<Self, String>)
        ensures
            match json_of(text@) {
                Err(error) => r matches Err(said) && said@ == error,
                Ok(tree) => match recalled(tree) {
                    Ok(kept) => r matches Ok(snapshot) && snapshot@ == kept,
                    Err(error) => r matches Err(said) && said@ == error,
                },
            },
    {
        let root = match parse(text) {
            Ok(root) => root,
            Err(error) => return Err(error),
        };
        if root.as_record().is_none() {
            return Err("not an object".to_owned());
        }
        let colours = match colours_under(&root) {
            Ok(colours) => colours,
            Err(error) => return Err(error),
        };
        let regions = match regions_under(&root) {
            Ok(regions) => regions,
            Err(error) => return Err(error),
        };
        let effect: u8 = match byte_under(&root, "effect") {
            Ok(byte) => byte,
            Err(error) => return Err(error),
        };
        let brightness: u8 = match byte_under(&root, "brightness") {
            Ok(byte) => byte,
            Err(error) => return Err(error),
        };
        let speed: u8 = match byte_under(&root, "speed") {
            Ok(byte) => byte,
            Err(error) => return Err(error),
        };
        let hue: u8 = match byte_under(&root, "hue") {
            Ok(byte) => byte,
            Err(error) => return Err(error),
        };
        let sat: u8 = match byte_under(&root, "sat") {
            Ok(byte) => byte,
            Err(error) => return Err(error),
        };
        let per_key_type: u8 = match byte_under(&root, "per_key_type") {
            Ok(byte) => byte,
            Err(error) => return Err(error),
        };
        let ambient = match slots_under(&root, "ambient") {
            Ok(slots) => slots,
            Err(error) => return Err(error),
        };
        let ours = match slots_under(&root, "ours") {
            Ok(slots) => slots,
            Err(error) => return Err(error),
        };
        Ok(
            Snapshot {
                effect,
                brightness,
                speed,
                hue,
                sat,
                per_key_type,
                colours,
                regions,
                ambient,
                ours,
            },
        )
    }
}

proof fn a_filed_snapshot_is_shallow(kept: Remembered)
    ensures
        shallow(filed(kept), 100),
{
    reveal_with_fuel(shallow, 4);
}

proof fn slots_read_back(slots: Seq<EffectSlot>)
    ensures
        slots_from(slot_list(slots)->List_0) == Some(slots),
    decreases slots.len(),
{
    let items = slot_list(slots)->List_0;
    if slots.len() > 0 {
        let before = slots.drop_last();
        slots_read_back(before);
        assert(items.drop_last() =~= slot_list(before)->List_0);
        numbers_read_back(slot_numbers(slots.last()));
        assert(before.push(slots.last()) =~= slots);
    } else {
        assert(slots =~= seq![]);
    }
}

proof fn colours_read_back(colours: Seq<(u8, Hsv)>)
    ensures
        colours_from(colour_list(colours)->List_0) == Some(colours),
    decreases colours.len(),
{
    let items = colour_list(colours)->List_0;
    if colours.len() > 0 {
        let before = colours.drop_last();
        colours_read_back(before);
        assert(items.drop_last() =~= colour_list(before)->List_0);
        numbers_read_back(colour_numbers(colours.last()));
        assert(before.push(colours.last()) =~= colours);
    } else {
        assert(colours =~= seq![]);
    }
}

/// **A snapshot survives the file.** What is filed of a snapshot is recalled
/// as that snapshot.
pub proof fn a_snapshot_survives_the_file(kept: Remembered)
    ensures
        recalled(filed(kept)) == Ok::<Remembered, Seq<char>>(kept),
{
    let tree = filed(kept);
    keys_differ();
    slots_read_back(kept.ambient);
    slots_read_back(kept.ours);
    colours_read_back(kept.colours);
    numbers_read_back(region_numbers(kept.regions));
    assert(regions_at(tree)->Ok_0 =~= kept.regions);
}

proof fn keys_differ()
    ensures
        "effect"@ != "brightness"@,
        "effect"@ != "speed"@,
        "effect"@ != "hue"@,
        "effect"@ != "sat"@,
        "effect"@ != "per_key_type"@,
        "effect"@ != "colours"@,
        "effect"@ != "regions"@,
        "effect"@ != "ambient"@,
        "effect"@ != "ours"@,
        "brightness"@ != "speed"@,
        "brightness"@ != "hue"@,
        "brightness"@ != "sat"@,
        "brightness"@ != "per_key_type"@,
        "brightness"@ != "colours"@,
        "brightness"@ != "regions"@,
        "brightness"@ != "ambient"@,
        "brightness"@ != "ours"@,
        "speed"@ != "hue"@,
        "speed"@ != "sat"@,
        "speed"@ != "per_key_type"@,
        "speed"@ != "colours"@,
        "speed"@ != "regions"@,
        "speed"@ != "ambient"@,
        "speed"@ != "ours"@,
        "hue"@ != "sat"@,
        "hue"@ != "per_key_type"@,
        "hue"@ != "colours"@,
        "hue"@ != "regions"@,
        "hue"@ != "ambient"@,
        "hue"@ != "ours"@,
        "sat"@ != "per_key_type"@,
        "sat"@ != "colours"@,
        "sat"@ != "regions"@,
        "sat"@ != "ambient"@,
        "sat"@ != "ours"@,
        "per_key_type"@ != "colours"@,
        "per_key_type"@ != "regions"@,
        "per_key_type"@ != "ambient"@,
        "per_key_type"@ != "ours"@,
        "colours"@ != "regions"@,
        "colours"@ != "ambient"@,
        "colours"@ != "ours"@,
        "regions"@ != "ambient"@,
        "regions"@ != "ours"@,
        "ambient"@ != "ours"@,
{
    reveal_strlit("effect");
    reveal_strlit("brightness");
    reveal_strlit("speed");
    reveal_strlit("hue");
    reveal_strlit("sat");
    reveal_strlit("per_key_type");
    reveal_strlit("colours");
    reveal_strlit("regions");
    reveal_strlit("ambient");
    reveal_strlit("ours");
    assert("effect"@[0] == 'e' && "brightness"@[0] == 'b' && "speed"@[0] == 's' && "hue"@[0] == 'h');
    assert("sat"@.len() == 3 && "speed"@.len() == 5);
    assert("per_key_type"@[0] == 'p' && "colours"@[0] == 'c' && "regions"@[0] == 'r');
    assert("ambient"@[0] == 'a' && "ours"@[0] == 'o' && "sat"@[0] == 's');
}

/// **What is kept is read from its own key**: a file that is taken is a record
/// with a number under each of the six values' names, and each is that value.
pub proof fn what_is_kept_is_read_from_its_key(tree: Tree)
    ensures
        tree !is Record ==> recalled(tree) == Err::<Remembered, Seq<char>>("not an object"@),
        recalled(tree) matches Ok(kept) ==> {
            &&& number_at(tree, "effect"@) == Some(kept.effect as u64)
            &&& number_at(tree, "brightness"@) == Some(kept.brightness as u64)
            &&& number_at(tree, "speed"@) == Some(kept.speed as u64)
            &&& number_at(tree, "hue"@) == Some(kept.hue as u64)
            &&& number_at(tree, "sat"@) == Some(kept.sat as u64)
            &&& number_at(tree, "per_key_type"@) == Some(kept.per_key_type as u64)
            &&& list_at(tree, "colours"@) matches Some(items) && items.len() == kept.colours.len()
            &&& list_at(tree, "ambient"@) matches Some(items) && items.len() == kept.ambient.len()
            &&& list_at(tree, "ours"@) matches Some(items) && items.len() == kept.ours.len()
        },
        tree is Record && list_at(tree, "colours"@) is None ==> recalled(tree) == Err::<
            Remembered,
            Seq<char>,
        >("missing colours"@),
{
    if let Some(items) = list_at(tree, "colours"@) {
        as_many_colours(items);
    }
    if let Some(items) = list_at(tree, "ambient"@) {
        as_many_slots(items);
    }
    if let Some(items) = list_at(tree, "ours"@) {
        as_many_slots(items);
    }
}

proof fn as_many_slots(items: Seq<Tree>)
    ensures
        slots_from(items) matches Some(slots) ==> slots.len() == items.len(),
    decreases items.len(),
{
    if items.len() > 0 {
        as_many_slots(items.drop_last());
    }
}

proof fn as_many_colours(items: Seq<Tree>)
    ensures
        colours_from(items) matches Some(colours) ==> colours.len() == items.len(),
    decreases items.len(),
{
    if items.len() > 0 {
        as_many_colours(items.drop_last());
    }
}

} // verus!

//! The settings on file.
//!
//! Read leniently in the small and strictly in the large: a file that is not
//! JSON, or not an object, is an error nobody should paper over; a single
//! field that has gone missing or odd falls back to its default, because
//! refusing the whole file over one bad colour helps nobody.

use vstd::prelude::*;

use crate::agents::{Called, Name};
use crate::json::{
    Json, Tree, entry, flag_at, json_of, list_at, number_at, pretty, pretty_of, put, real_at,
    record, says, shallow, text_at, text_of, trees, trees_are_items,
};
use crate::number;
use crate::settings::{
    AgentFilter, Gain, Lane, MAX_COLOR_GAIN, MAX_LANES, MIN_BRIGHTNESS, MIN_COLOR_GAIN,
    MiniWindow, ONE, Rgb, Save, SavedAgent, Settings, Setup, Tuning, a_colour_is_read_as_written,
    a_fraction_is_read_as_written, fraction, fraction_bits, fraction_of, knows, lane_views,
    save_views,
};
use crate::table::{Table, before, mapped, mapped_by_entries, one_comes_first};
use crate::text;

verus! {

/// One channel's gain, where `tree` gives it.
pub open spec fn gained(tree: Tree, key: Seq<char>, known: u32) -> u32 {
    match real_at(tree, key) {
        Some(bits) => fraction(bits, MIN_COLOR_GAIN, MAX_COLOR_GAIN),
        None => known,
    }
}

/// `known`, with what `tree` says of brightness and gain.
pub open spec fn tuned_by(tree: Tree, known: Tuning) -> Tuning {
    Tuning {
        brightness: match real_at(tree, "brightness"@) {
            Some(bits) => fraction(bits, MIN_BRIGHTNESS, ONE),
            None => known.brightness,
        },
        color_gain: match entry(tree, "color_gain"@) {
            Some(gain) => Gain {
                r: gained(gain, "r"@, known.color_gain.r),
                g: gained(gain, "g"@, known.color_gain.g),
                b: gained(gain, "b"@, known.color_gain.b),
            },
            None => known.color_gain,
        },
    }
}

/// Each device's tuning, of the devices that are objects; a field one of them
/// does not give is the shared one's.
pub open spec fn devices_in(tree: Tree, shared: Tuning) -> Map<Seq<char>, Tuning> {
    match tree {
        Tree::Record(entries) => Map::new(
            |key: Seq<char>| entries.contains_key(key) && entries[key] is Record,
            |key: Seq<char>| tuned_by(entries[key], shared),
        ),
        _ => map![],
    }
}

/// The strings in a list, as a set.
pub open spec fn names_in(items: Seq<Tree>) -> Map<Seq<char>, ()>
    decreases items.len(),
{
    if items.len() == 0 {
        map![]
    } else {
        match text_of(items.last()) {
            Some(name) => names_in(items.drop_last()).insert(name, ()),
            None => names_in(items.drop_last()),
        }
    }
}

/// A window is remembered whole or not at all: half a window would open
/// somewhere absurd.
pub open spec fn window_in(tree: Tree) -> Option<MiniWindow> {
    match (
        real_at(tree, "x"@),
        real_at(tree, "y"@),
        real_at(tree, "width"@),
        real_at(tree, "row_height"@),
    ) {
        (Some(x), Some(y), Some(width), Some(row_height)) => {
            let window = MiniWindow {
                x: number::single(x),
                y: number::single(y),
                width: number::single(width),
                row_height: number::single(row_height),
            };
            if number::finite(window.x) && number::finite(window.y) && number::finite(window.width)
                && number::finite(window.row_height) {
                Some(window)
            } else {
                None
            }
        },
        _ => None,
    }
}

/// One `{"agent": …, "folder": …}` object, preferring `lane`. A missing or
/// empty folder is no entry at all.
pub open spec fn save_from(tree: Tree, lane: usize, agent_name: Called) -> Option<Save> {
    match text_at(tree, "folder"@) {
        Some(folder) => if folder.len() == 0 {
            None
        } else {
            Some(
                Save {
                    agent: match text_at(tree, "agent"@) {
                        Some(agent) => AgentFilter::meant(agent, agent_name),
                        None => AgentFilter::Any,
                    },
                    folder,
                    lane,
                },
            )
        },
        None => None,
    }
}

/// The entry a saved item stands for. The file counts lanes from one, like
/// the window does; a lane that is not one of the six is no entry.
pub open spec fn save_in(item: Tree, agent_name: Called) -> Option<Save> {
    match number_at(item, "lane"@) {
        Some(lane) => if 1 <= lane <= MAX_LANES {
            save_from(item, (lane - 1) as usize, agent_name)
        } else {
            None
        },
        None => None,
    }
}

/// `setup`, remembering what a list saves, in its order.
pub open spec fn with_saved(setup: Setup, items: Seq<Tree>, agent_name: Called) -> Setup
    decreases items.len(),
{
    if items.len() == 0 {
        setup
    } else {
        let before = with_saved(setup, items.drop_last(), agent_name);
        match save_in(items.last(), agent_name) {
            Some(entry) => before.remembering(entry),
            None => before,
        }
    }
}

/// `setup`, with what one item says of lane `index`. A `bind` — the old way to
/// save an agent — is read as a saved agent that prefers the lane it was on.
pub open spec fn with_lane(setup: Setup, index: int, item: Tree, agent_name: Called) -> Setup {
    let (name, color) = setup.lanes[index];
    let lane = (
        match text_at(item, "name"@) {
            Some(name) => name,
            None => name,
        },
        match text_at(item, "color"@) {
            Some(spelt) => match Rgb::spelt(spelt) {
                Some(color) => color,
                None => color,
            },
            None => color,
        },
    );
    let named = Setup { lanes: setup.lanes.update(index, lane), ..setup };
    match entry(item, "bind"@) {
        Some(bind) => match save_from(bind, index as usize, agent_name) {
            Some(legacy) => named.remembering(legacy),
            None => named,
        },
        None => named,
    }
}

/// `setup`, with what a list says of the first six lanes.
pub open spec fn with_lanes(setup: Setup, items: Seq<Tree>, agent_name: Called) -> Setup
    decreases items.len(),
{
    if items.len() == 0 {
        setup
    } else if items.len() > MAX_LANES {
        with_lanes(setup, items.drop_last(), agent_name)
    } else {
        with_lane(with_lanes(setup, items.drop_last(), agent_name), items.len() - 1, items.last(), agent_name)
    }
}

/// What the file sets, before its lists are read.
pub open spec fn plain_fields(tree: Tree) -> Setup {
    let counted = match number_at(tree, "lane_count"@) {
        Some(count) => Setup::usual().counted(count as int),
        None => Setup::usual(),
    };
    let tuning = tuned_by(tree, Tuning::usual());
    Setup {
        tuning,
        devices: match entry(tree, "devices"@) {
            Some(devices) => devices_in(devices, tuning),
            None => map![],
        },
        disabled: match list_at(tree, "disabled"@) {
            Some(items) => names_in(items),
            None => map![],
        },
        mini_window: match entry(tree, "mini_window"@) {
            Some(window) => window_in(window),
            None => None,
        },
        settings_open: flag_at(tree, "settings_open"@) == Some(true),
        mini: flag_at(tree, "mini"@) == Some(true),
        ..counted
    }
}

/// The settings an object describes.
pub open spec fn setup_in(tree: Tree, agent_name: Called) -> Setup {
    let fields = plain_fields(tree);
    let saved = match list_at(tree, "saved"@) {
        Some(items) => with_saved(fields, items, agent_name),
        None => fields,
    };
    match list_at(tree, "lanes"@) {
        Some(items) => with_lanes(saved, items, agent_name),
        None => saved,
    }
}

fn read_gain(gain: &Json, key: &str, known: u32) -> (r: u32)
    ensures
        r == gained(gain@, key@, known),
{
    match gain.real_at(key) {
        Some(bits) => fraction_of(bits, MIN_COLOR_GAIN, MAX_COLOR_GAIN),
        None => known,
    }
}

/// `brightness` and `color_gain`, from any object that carries them: the
/// file's root for the shared tuning, an entry under `devices` for a device's.
pub fn read_tuning(object: &Json, known: Tuning) -> (tuning: Tuning)
    ensures
        tuning == tuned_by(object@, known),
{
    let brightness: u32 = match object.real_at("brightness") {
        Some(bits) => fraction_of(bits, MIN_BRIGHTNESS, ONE),
        None => known.brightness,
    };
    let color_gain = match object.get("color_gain") {
        Some(gain) => Gain {
            r: read_gain(gain, "r", known.color_gain.r),
            g: read_gain(gain, "g", known.color_gain.g),
            b: read_gain(gain, "b", known.color_gain.b),
        },
        None => known.color_gain,
    };
    Tuning { brightness, color_gain }
}

fn read_devices(devices: &Json, shared: Tuning) -> (r: Table<Tuning>)
    ensures
        r@ == devices_in(devices@, shared),
{
    let mut table: Table<Tuning> = Table::new();
    match devices {
        Json::Record(entries) => {
            let mut i: usize = 0;
            assert(record(entries@.take(0)) =~= map![]);
            assert(table@ =~= devices_in(Tree::Record(record(entries@.take(0))), shared));
            while i < entries.len()
                invariant
                    i <= entries@.len(),
                    table@ == devices_in(Tree::Record(record(entries@.take(i as int))), shared),
                decreases entries@.len() - i,
            {
                let ghost was = record(entries@.take(i as int));
                let ghost now = record(entries@.take(i + 1));
                let ghost key = entries@[i as int].0@;
                let ghost value = entries@[i as int].1@;
                assert(entries@.take(i + 1).drop_last() =~= entries@.take(i as int));
                assert(now == was.insert(key, value));
                if entries[i].1.is_record() {
                    table.insert(entries[i].0.clone(), read_tuning(&entries[i].1, shared));
                } else {
                    table.remove(entries[i].0.as_str());
                }
                assert(table@ =~= devices_in(Tree::Record(now), shared));
                i = i + 1;
            }
            assert(entries@.take(i as int) =~= entries@);
        },
        _ => {},
    }
    table
}

fn read_names(items: &Vec<Json>) -> (r: Table<()>)
    ensures
        r@ == names_in(trees(items@)),
{
    let mut table: Table<()> = Table::new();
    let ghost all = trees(items@);
    let mut i: usize = 0;
    proof {
        trees_are_items(items@);
        assert(table@ =~= names_in(all.take(0)));
    }
    while i < items.len()
        invariant
            i <= items@.len(),
            all == trees(items@),
            all.len() == items@.len(),
            forall|j: int| 0 <= j < items@.len() ==> #[trigger] all[j] == items@[j]@,
            table@ == names_in(all.take(i as int)),
        decreases items@.len() - i,
    {
        assert(all.take(i + 1).drop_last() =~= all.take(i as int));
        assert(all[i as int] == items@[i as int]@);
        if let Some(name) = items[i].as_str() {
            table.insert(name.to_owned(), ());
        }
        i = i + 1;
    }
    assert(all.take(i as int) =~= all);
    table
}

fn read_window(window: &Json) -> (r: Option<MiniWindow>)
    ensures
        r == window_in(window@),
{
    match (
        window.real_at("x"),
        window.real_at("y"),
        window.real_at("width"),
        window.real_at("row_height"),
    ) {
        (Some(x), Some(y), Some(width), Some(row_height)) => {
            let x: u64 = number::single_of(x);
            let y: u64 = number::single_of(y);
            let width: u64 = number::single_of(width);
            let row_height: u64 = number::single_of(row_height);
            if number::is_finite(x) && number::is_finite(y) && number::is_finite(width)
                && number::is_finite(row_height) {
                Some(MiniWindow { x, y, width, row_height })
            } else {
                None
            }
        },
        _ => None,
    }
}

/// One `{"agent": …, "folder": …}` object, preferring `lane`. A missing or
/// empty folder is no entry at all.
fn saved_agent(object: &Json, lane: usize, agent_name: &Name) -> (r: Option<SavedAgent>)
    ensures
        match r {
            Some(entry) => save_from(object@, lane, agent_name@) == Some(entry@),
            None => save_from(object@, lane, agent_name@) is None,
        },
{
    let folder = match object.text_at("folder") {
        Some(folder) => folder,
        None => return None,
    };
    if folder.is_empty() {
        return None;
    }
    let agent = match object.text_at("agent") {
        Some(agent) => AgentFilter::parse(agent, agent_name),
        None => AgentFilter::Any,
    };
    Some(SavedAgent { agent, folder: folder.to_owned(), lane })
}

fn read_saved(settings: &mut Settings, items: &Vec<Json>, agent_name: &Name)
    ensures
        final(settings)@ == with_saved(old(settings)@, trees(items@), agent_name@),
{
    let ghost start = settings@;
    let ghost all = trees(items@);
    let mut i: usize = 0;
    proof {
        trees_are_items(items@);
        assert(all.take(0) =~= seq![]);
    }
    while i < items.len()
        invariant
            i <= items@.len(),
            all == trees(items@),
            all.len() == items@.len(),
            forall|j: int| 0 <= j < items@.len() ==> #[trigger] all[j] == items@[j]@,
            settings@ == with_saved(start, all.take(i as int), agent_name@),
        decreases items@.len() - i,
    {
        assert(all.take(i + 1).drop_last() =~= all.take(i as int));
        assert(all[i as int] == items@[i as int]@);
        if let Some(lane) = items[i].number_at("lane") {
            if 1 <= lane && lane <= 6 {
                if let Some(entry) = saved_agent(&items[i], (lane - 1) as usize, agent_name) {
                    settings.remember(entry);
                }
            }
        }
        i = i + 1;
    }
    assert(all.take(i as int) =~= all);
}

fn read_lane(settings: &mut Settings, index: usize, item: &Json, agent_name: &Name)
    requires
        index < 6,
        old(settings).lanes@.len() == 6,
    ensures
        final(settings)@ == with_lane(old(settings)@, index as int, item@, agent_name@),
        final(settings).lanes@.len() == 6,
{
    let ghost start = settings@;
    let ghost lanes = settings.lanes@;
    assert(start.lanes[index as int] == lanes[index as int]@);
    let name: String = match item.text_at("name") {
        Some(name) => name.to_owned(),
        None => settings.lanes[index].name.clone(),
    };
    let known = settings.lanes[index].color;
    let color = match item.text_at("color") {
        Some(spelt) => match Rgb::from_hex(spelt) {
            Some(color) => color,
            None => known,
        },
        None => known,
    };
    settings.lanes.set(index, Lane { name, color });
    assert(lane_views(settings.lanes@) =~= lane_views(lanes).update(
        index as int,
        settings.lanes@[index as int]@,
    ));
    if let Some(bind) = item.get("bind") {
        if let Some(legacy) = saved_agent(bind, index, agent_name) {
            let ghost named = settings@;
            settings.remember(legacy);
            assert(settings@.lanes.len() == named.lanes.len());
        }
    }
    assert(settings@.lanes.len() == settings.lanes@.len());
}

proof fn lanes_past_the_sixth(setup: Setup, items: Seq<Tree>, upto: int, agent_name: Called)
    requires
        MAX_LANES <= upto <= items.len(),
    ensures
        with_lanes(setup, items.take(upto), agent_name) == with_lanes(setup, items.take(MAX_LANES as int), agent_name),
    decreases upto,
{
    if upto > MAX_LANES {
        assert(items.take(upto).drop_last() =~= items.take(upto - 1));
        lanes_past_the_sixth(setup, items, upto - 1, agent_name);
    }
}

fn read_lanes(settings: &mut Settings, items: &Vec<Json>, agent_name: &Name)
    requires
        old(settings).lanes@.len() == 6,
    ensures
        final(settings)@ == with_lanes(old(settings)@, trees(items@), agent_name@),
        final(settings).lanes@.len() == 6,
{
    let ghost start = settings@;
    let ghost all = trees(items@);
    let mut i: usize = 0;
    proof {
        trees_are_items(items@);
        assert(all.take(0) =~= seq![]);
    }
    while i < items.len() && i < MAX_LANES
        invariant
            i <= items@.len(),
            i <= 6,
            settings.lanes@.len() == 6,
            all == trees(items@),
            all.len() == items@.len(),
            forall|j: int| 0 <= j < items@.len() ==> #[trigger] all[j] == items@[j]@,
            settings@ == with_lanes(start, all.take(i as int), agent_name@),
        decreases items@.len() - i,
    {
        assert(all.take(i + 1).drop_last() =~= all.take(i as int));
        assert(all[i as int] == items@[i as int]@);
        read_lane(settings, i, &items[i], agent_name);
        i = i + 1;
    }
    proof {
        if all.len() > 6 {
            lanes_past_the_sixth(start, all, all.len() as int, agent_name@);
        }
        assert(all.take(all.len() as int) =~= all);
    }
}

/// The settings that a JSON value describes. `Err` when it is no object.
pub fn read(value: &Json, agent_name: &Name) -> (r: Result<Settings, String>)
    ensures
        match r {
            Ok(settings) => value@ is Record && settings@ == setup_in(value@, agent_name@)
                && settings.lanes@.len() == 6,
            Err(error) => !(value@ is Record) && error@
                == "the settings file is not a JSON object"@,
        },
{
    if !value.is_record() {
        return Err("the settings file is not a JSON object".to_owned());
    }
    let mut settings = Settings::default();
    assert(settings@.lanes.len() == settings.lanes@.len());
    if let Some(count) = value.number_at("lane_count") {
        if 3 <= count && count <= 6 {
            settings.set_lane_count(count as usize);
        }
    }
    settings.tuning = read_tuning(value, settings.tuning);
    if let Some(devices) = value.get("devices") {
        settings.devices = read_devices(devices, settings.tuning);
    }
    if let Some(off) = value.list_at("disabled") {
        settings.disabled = read_names(off);
    }
    if let Some(window) = value.get("mini_window") {
        settings.mini_window = read_window(window);
    }
    if let Some(open) = value.flag_at("settings_open") {
        settings.settings_open = open;
    }
    if let Some(mini) = value.flag_at("mini") {
        settings.mini = mini;
    }
    assert(settings@ =~= plain_fields(value@));
    if let Some(saved) = value.list_at("saved") {
        let ghost fields = settings@;
        read_saved(&mut settings, saved, agent_name);
        proof {
            saving_keeps_lanes(fields, trees(saved@), agent_name@);
        }
        assert(settings@.lanes.len() == settings.lanes@.len());
    }
    if let Some(lanes) = value.list_at("lanes") {
        read_lanes(&mut settings, lanes, agent_name);
    }
    Ok(settings)
}

proof fn saving_keeps_lanes(setup: Setup, items: Seq<Tree>, agent_name: Called)
    ensures
        with_saved(setup, items, agent_name).lanes == setup.lanes,
    decreases items.len(),
{
    if items.len() > 0 {
        saving_keeps_lanes(setup, items.drop_last(), agent_name);
    }
}

/// Reads a settings file.
///
/// A file from before saved agents existed carried a `bind` on each lane —
/// the same `(agent, folder)`, pinned to that lane. Those are read as saved
/// agents preferring the lane they were on, and never written back in the old
/// shape.
pub fn parse(text: &str, agent_name: &Name) -> (r: Result<Settings, String>)
    ensures
        match json_of(text@) {
            Err(error) => r matches Err(said) && said@ == error,
            Ok(tree) => match r {
                Ok(settings) => tree is Record && settings@ == setup_in(tree, agent_name@),
                Err(said) => !(tree is Record) && said@ == "the settings file is not a JSON object"@,
            },
        },
{
    match crate::json::parse(text) {
        Ok(value) => read(&value, agent_name),
        Err(error) => Err(error),
    }
}

/// A tuning's two entries, added to an object.
pub open spec fn with_tuning(entries: Map<Seq<char>, Tree>, tuning: Tuning) -> Map<
    Seq<char>,
    Tree,
> {
    entries.insert("brightness"@, Tree::Real(fraction_bits(tuning.brightness))).insert(
        "color_gain"@,
        Tree::Record(
            map![
                "r"@ => Tree::Real(fraction_bits(tuning.color_gain.r)),
                "g"@ => Tree::Real(fraction_bits(tuning.color_gain.g)),
                "b"@ => Tree::Real(fraction_bits(tuning.color_gain.b)),
            ],
        ),
    )
}

pub open spec fn device_tree(tuning: Tuning) -> Tree {
    Tree::Record(with_tuning(map![], tuning))
}

pub open spec fn devices_tree(devices: Map<Seq<char>, Tuning>) -> Tree {
    Tree::Record(
        Map::new(
            |key: Seq<char>| devices.contains_key(key),
            |key: Seq<char>| device_tree(devices[key]),
        ),
    )
}

/// Whether `names` are the keys of `set`, each once, in order.
pub open spec fn lists(names: Seq<Seq<char>>, set: Map<Seq<char>, ()>) -> bool {
    &&& forall|i: int, j: int|
        0 <= i < j < names.len() ==> before(#[trigger] names[i], #[trigger] names[j])
    &&& forall|i: int| 0 <= i < names.len() ==> set.contains_key(#[trigger] names[i])
    &&& forall|key: Seq<char>| #[trigger] set.contains_key(key) ==> names.contains(key)
}

/// The keys of `set`, in order.
pub open spec fn names_of(set: Map<Seq<char>, ()>) -> Seq<Seq<char>> {
    choose|names: Seq<Seq<char>>| lists(names, set)
}

proof fn one_list(left: Seq<Seq<char>>, right: Seq<Seq<char>>, set: Map<Seq<char>, ()>)
    requires
        lists(left, set),
        lists(right, set),
    ensures
        left == right,
    decreases left.len(),
{
    if left.len() == 0 {
        if right.len() > 0 {
            assert(set.contains_key(right[0]));
            assert(left.contains(right[0]));
        }
        assert(left =~= right);
    } else {
        assert(set.contains_key(left[0]));
        assert(right.contains(left[0]));
        let a = left.last();
        let b = right.last();
        assert(set.contains_key(left[left.len() - 1]));
        assert(set.contains_key(right[right.len() - 1]));
        let i = choose|i: int| 0 <= i < right.len() && right[i] == a;
        let j = choose|j: int| 0 <= j < left.len() && left[j] == b;
        assert(right.contains(a) && left.contains(b));
        if a != b {
            assert(before(right[i], right[right.len() - 1]));
            assert(before(left[j], left[left.len() - 1]));
            one_comes_first(a, b);
        }
        let fewer = set.remove(a);
        let l = left.drop_last();
        let r = right.drop_last();
        assert(lists(l, fewer)) by {
            assert forall|i: int| 0 <= i < l.len() implies fewer.contains_key(#[trigger] l[i]) by {
                assert(before(left[i], left[left.len() - 1]));
                one_comes_first(left[i], a);
                assert(set.contains_key(left[i]));
            }
            assert forall|key: Seq<char>| #[trigger] fewer.contains_key(key) implies l.contains(key) by {
                assert(set.contains_key(key));
                let k = choose|k: int| 0 <= k < left.len() && left[k] == key;
                assert(l[k] == key);
            }
        }
        assert(lists(r, fewer)) by {
            assert forall|i: int| 0 <= i < r.len() implies fewer.contains_key(#[trigger] r[i]) by {
                assert(before(right[i], right[right.len() - 1]));
                one_comes_first(right[i], b);
                assert(set.contains_key(right[i]));
            }
            assert forall|key: Seq<char>| #[trigger] fewer.contains_key(key) implies r.contains(key) by {
                assert(set.contains_key(key));
                let k = choose|k: int| 0 <= k < right.len() && right[k] == key;
                assert(r[k] == key);
            }
        }
        one_list(l, r, fewer);
        assert(left =~= l.push(a));
        assert(right =~= r.push(b));
    }
}

pub open spec fn texts(names: Seq<Seq<char>>) -> Tree {
    Tree::List(Seq::new(names.len(), |i: int| Tree::Text(names[i])))
}

pub open spec fn lane_tree(lane: (Seq<char>, Rgb)) -> Tree {
    Tree::Record(map!["name"@ => Tree::Text(lane.0), "color"@ => Tree::Text(lane.1.hex())])
}

pub open spec fn save_tree(save: Save, agent_name: Called) -> Tree {
    Tree::Record(
        map![
            "agent"@ => Tree::Text(save.agent.word(agent_name)),
            "folder"@ => Tree::Text(save.folder),
            "lane"@ => Tree::Unsigned((save.lane + 1) as u64),
        ],
    )
}

pub open spec fn window_tree(window: MiniWindow) -> Tree {
    Tree::Record(
        map![
            "x"@ => shown_number(window.x),
            "y"@ => shown_number(window.y),
            "width"@ => shown_number(window.width),
            "row_height"@ => shown_number(window.row_height),
        ],
    )
}

/// A number, or nothing when the bits are none.
pub open spec fn shown_number(bits: u64) -> Tree {
    Json::Real(bits).tree()
}

/// The settings as they are filed.
pub open spec fn filed(setup: Setup, agent_name: Called) -> Tree {
    let counted = map!["lane_count"@ => Tree::Unsigned(setup.lane_count as u64)];
    let tuned = with_tuning(counted, setup.tuning).insert("devices"@, devices_tree(setup.devices));
    let ticked = if setup.disabled == Map::<Seq<char>, ()>::empty() {
        tuned
    } else {
        tuned.insert("disabled"@, texts(names_of(setup.disabled)))
    };
    let flagged = ticked.insert("settings_open"@, Tree::Bool(setup.settings_open)).insert(
        "mini"@,
        Tree::Bool(setup.mini),
    );
    let placed = match setup.mini_window {
        Some(window) => flagged.insert("mini_window"@, window_tree(window)),
        None => flagged,
    };
    Tree::Record(
        placed.insert(
            "lanes"@,
            Tree::List(Seq::new(setup.lanes.len(), |i: int| lane_tree(setup.lanes[i]))),
        ).insert(
            "saved"@,
            Tree::List(Seq::new(setup.saved.len(), |i: int| save_tree(setup.saved[i], agent_name))),
        ),
    )
}

fn fraction_json(n: u32) -> (json: Json)
    ensures
        json@ == Tree::Real(fraction_bits(n)),
{
    let bits: u64 = number::double_of(n as u64, -28);
    Json::Real(bits)
}

/// A tuning's two entries, added to an object.
fn write_tuning(object: &mut Vec<(String, Json)>, tuning: Tuning)
    ensures
        record(final(object)@) == with_tuning(record(old(object)@), tuning),
{
    put(object, "brightness", fraction_json(tuning.brightness));
    let mut gain: Vec<(String, Json)> = Vec::new();
    assert(record(gain@) =~= map![]);
    put(&mut gain, "r", fraction_json(tuning.color_gain.r));
    put(&mut gain, "g", fraction_json(tuning.color_gain.g));
    put(&mut gain, "b", fraction_json(tuning.color_gain.b));
    put(object, "color_gain", Json::Record(gain));
}

fn devices_json(devices: &Table<Tuning>) -> (json: Json)
    ensures
        json@ == devices_tree(devices@),
{
    let pairs = devices.pairs();
    let mut object: Vec<(String, Json)> = Vec::new();
    let mut i: usize = 0;
    assert(record(object@) =~= devices_tree(mapped(pairs@.take(0)))->Record_0);
    while i < pairs.len()
        invariant
            i <= pairs@.len(),
            record(object@) == devices_tree(mapped(pairs@.take(i as int)))->Record_0,
        decreases pairs@.len() - i,
    {
        assert(pairs@.take(i + 1).drop_last() =~= pairs@.take(i as int));
        let mut entry: Vec<(String, Json)> = Vec::new();
        assert(record(entry@) =~= map![]);
        write_tuning(&mut entry, pairs[i].1);
        put(&mut object, pairs[i].0.as_str(), Json::Record(entry));
        assert(record(object@) =~= devices_tree(mapped(pairs@.take(i + 1)))->Record_0);
        i = i + 1;
    }
    assert(pairs@.take(i as int) =~= pairs@);
    Json::Record(object)
}

fn disabled_json(disabled: &Table<()>) -> (json: Json)
    ensures
        json@ == texts(names_of(disabled@)),
{
    let pairs = disabled.pairs();
    let ghost names = Seq::new(pairs@.len(), |i: int| pairs@[i].0@);
    let mut items: Vec<Json> = Vec::new();
    let mut i: usize = 0;
    while i < pairs.len()
        invariant
            i <= pairs@.len(),
            i == items@.len(),
            forall|j: int| 0 <= j < i ==> (#[trigger] items@[j])@ == Tree::Text(pairs@[j].0@),
        decreases pairs@.len() - i,
    {
        items.push(Json::Text(pairs[i].0.clone()));
        i = i + 1;
    }
    proof {
        mapped_by_entries(pairs@);
        assert(lists(names, disabled@)) by {
            assert forall|i: int, j: int| 0 <= i < j < names.len() implies before(
                #[trigger] names[i],
                #[trigger] names[j],
            ) by {
                assert(before(pairs@[i].0@, pairs@[j].0@));
            }
            assert forall|i: int| 0 <= i < names.len() implies disabled@.contains_key(
                #[trigger] names[i],
            ) by {
                assert(mapped(pairs@).contains_key(pairs@[i].0@));
            }
            assert forall|key: Seq<char>| #[trigger] disabled@.contains_key(key) implies names.contains(
                key,
            ) by {
                let i = choose|i: int| 0 <= i < pairs@.len() && (#[trigger] pairs@[i]).0@ == key;
                assert(names[i] == key);
            }
        }
        one_list(names, names_of(disabled@), disabled@);
        trees_are_items(items@);
        assert(trees(items@) =~= Seq::new(names.len(), |i: int| Tree::Text(names[i])));
    }
    Json::List(items)
}

fn lanes_json(lanes: &Vec<Lane>) -> (json: Json)
    ensures
        json@ == Tree::List(
            Seq::new(lane_views(lanes@).len(), |i: int| lane_tree(lane_views(lanes@)[i])),
        ),
{
    let mut items: Vec<Json> = Vec::new();
    let mut i: usize = 0;
    while i < lanes.len()
        invariant
            i <= lanes@.len(),
            i == items@.len(),
            forall|j: int| 0 <= j < i ==> (#[trigger] items@[j])@ == lane_tree(lanes@[j]@),
        decreases lanes@.len() - i,
    {
        let mut object: Vec<(String, Json)> = Vec::new();
        assert(record(object@) =~= map![]);
        put(&mut object, "name", Json::Text(lanes[i].name.clone()));
        put(&mut object, "color", Json::Text(lanes[i].color.to_hex()));
        items.push(Json::Record(object));
        i = i + 1;
    }
    proof {
        trees_are_items(items@);
        assert(trees(items@) =~= Seq::new(
            lane_views(lanes@).len(),
            |i: int| lane_tree(lane_views(lanes@)[i]),
        ));
    }
    Json::List(items)
}

fn saved_json(saved: &Vec<SavedAgent>, agent_name: &Name) -> (json: Json)
    requires
        forall|i: int| 0 <= i < saved@.len() ==> (#[trigger] saved@[i]).lane < usize::MAX,
    ensures
        json@ == Tree::List(
            Seq::new(save_views(saved@).len(), |i: int| save_tree(save_views(saved@)[i], agent_name@)),
        ),
{
    let mut items: Vec<Json> = Vec::new();
    let mut i: usize = 0;
    while i < saved.len()
        invariant
            i <= saved@.len(),
            i == items@.len(),
            forall|i: int| 0 <= i < saved@.len() ==> (#[trigger] saved@[i]).lane < usize::MAX,
            forall|j: int| 0 <= j < i ==> (#[trigger] items@[j])@ == save_tree(saved@[j]@, agent_name@),
        decreases saved@.len() - i,
    {
        let mut object: Vec<(String, Json)> = Vec::new();
        assert(record(object@) =~= map![]);
        put(&mut object, "agent", Json::Text(saved[i].agent.key(agent_name)));
        put(&mut object, "folder", Json::Text(saved[i].folder.clone()));
        put(&mut object, "lane", Json::Unsigned((saved[i].lane + 1) as u64));
        items.push(Json::Record(object));
        i = i + 1;
    }
    proof {
        trees_are_items(items@);
        assert(trees(items@) =~= Seq::new(
            save_views(saved@).len(),
            |i: int| save_tree(save_views(saved@)[i], agent_name@),
        ));
    }
    Json::List(items)
}

/// The settings as a JSON value.
pub fn write(settings: &Settings, agent_name: &Name) -> (json: Json)
    requires
        forall|i: int|
            0 <= i < settings.saved@.len() ==> (#[trigger] settings.saved@[i]).lane < usize::MAX,
    ensures
        json@ == filed(settings@, agent_name@),
{
    let mut root: Vec<(String, Json)> = Vec::new();
    assert(record(root@) =~= map![]);
    put(&mut root, "lane_count", Json::Unsigned(settings.lane_count as u64));
    write_tuning(&mut root, settings.tuning);
    put(&mut root, "devices", devices_json(&settings.devices));
    if !settings.disabled.is_empty() {
        put(&mut root, "disabled", disabled_json(&settings.disabled));
    }
    put(&mut root, "settings_open", Json::Bool(settings.settings_open));
    put(&mut root, "mini", Json::Bool(settings.mini));
    if let Some(window) = settings.mini_window {
        let mut out: Vec<(String, Json)> = Vec::new();
        assert(record(out@) =~= map![]);
        put(&mut out, "x", Json::Real(window.x));
        put(&mut out, "y", Json::Real(window.y));
        put(&mut out, "width", Json::Real(window.width));
        put(&mut out, "row_height", Json::Real(window.row_height));
        put(&mut root, "mini_window", Json::Record(out));
    }
    put(&mut root, "lanes", lanes_json(&settings.lanes));
    put(&mut root, "saved", saved_json(&settings.saved, agent_name));
    Json::Record(root)
}

proof fn filed_is_shallow(setup: Setup, agent_name: Called)
    ensures
        shallow(filed(setup, agent_name), 100),
{
    reveal_with_fuel(shallow, 5);
    assert forall|key: Seq<char>| setup.devices.contains_key(key) implies shallow(
        #[trigger] device_tree(setup.devices[key]),
        98,
    ) by {
        reveal_with_fuel(shallow, 4);
    }
}

/// The settings as a file's text.
pub fn to_json(settings: &Settings, agent_name: &Name) -> (text: String)
    requires
        forall|i: int|
            0 <= i < settings.saved@.len() ==> (#[trigger] settings.saved@[i]).lane < usize::MAX,
    ensures
        text@ == pretty_of(filed(settings@, agent_name@)),
        says(text@, filed(settings@, agent_name@)),
{
    let json = write(settings, agent_name);
    proof {
        filed_is_shallow(settings@, agent_name@);
    }
    pretty(&json)
}

/// What a file can hold of settings: six lanes, three to six of them live;
/// every fraction a single-precision number in its range; saved agents that
/// have a folder and one of the six lanes, none of them twice; a window whose
/// numbers are single-precision ones.
pub open spec fn can_be_filed(setup: Setup) -> bool {
    &&& setup.wf()
    &&& setup.tuning.in_range() && setup.tuning.is_single()
    &&& forall|key: Seq<char>|
        setup.devices.contains_key(key) ==> (#[trigger] setup.devices[key]).in_range()
            && setup.devices[key].is_single()
    &&& exists|names: Seq<Seq<char>>| lists(names, setup.disabled)
    &&& forall|i: int|
        0 <= i < setup.saved.len() ==> (#[trigger] setup.saved[i]).folder.len() > 0
            && setup.saved[i].lane < MAX_LANES
    &&& forall|i: int, j: int|
        0 <= i < j < setup.saved.len() ==> !(#[trigger] setup.saved[i]).same(
            #[trigger] setup.saved[j],
        )
    &&& setup.mini_window matches Some(window) ==> {
        &&& is_plain_single(window.x)
        &&& is_plain_single(window.y)
        &&& is_plain_single(window.width)
        &&& is_plain_single(window.row_height)
    }
}

pub open spec fn is_plain_single(bits: u64) -> bool {
    number::finite(bits) && number::single(bits) == bits
}

proof fn root_keys_differ()
    ensures
        "lane_count"@ != "brightness"@,
        "lane_count"@ != "color_gain"@,
        "lane_count"@ != "devices"@,
        "lane_count"@ != "disabled"@,
        "lane_count"@ != "settings_open"@,
        "lane_count"@ != "mini"@,
        "lane_count"@ != "mini_window"@,
        "lane_count"@ != "lanes"@,
        "lane_count"@ != "saved"@,
        "brightness"@ != "color_gain"@,
        "brightness"@ != "devices"@,
        "brightness"@ != "disabled"@,
        "brightness"@ != "settings_open"@,
        "brightness"@ != "mini"@,
        "brightness"@ != "mini_window"@,
        "brightness"@ != "lanes"@,
        "brightness"@ != "saved"@,
        "color_gain"@ != "devices"@,
        "color_gain"@ != "disabled"@,
        "color_gain"@ != "settings_open"@,
        "color_gain"@ != "mini"@,
        "color_gain"@ != "mini_window"@,
        "color_gain"@ != "lanes"@,
        "color_gain"@ != "saved"@,
        "devices"@ != "disabled"@,
        "devices"@ != "settings_open"@,
        "devices"@ != "mini"@,
        "devices"@ != "mini_window"@,
        "devices"@ != "lanes"@,
        "devices"@ != "saved"@,
        "disabled"@ != "settings_open"@,
        "disabled"@ != "mini"@,
        "disabled"@ != "mini_window"@,
        "disabled"@ != "lanes"@,
        "disabled"@ != "saved"@,
        "settings_open"@ != "mini"@,
        "settings_open"@ != "mini_window"@,
        "settings_open"@ != "lanes"@,
        "settings_open"@ != "saved"@,
        "mini"@ != "mini_window"@,
        "mini"@ != "lanes"@,
        "mini"@ != "saved"@,
        "mini_window"@ != "lanes"@,
        "mini_window"@ != "saved"@,
        "lanes"@ != "saved"@,
        "r"@ != "g"@,
        "r"@ != "b"@,
        "g"@ != "b"@,
        "x"@ != "y"@,
        "x"@ != "width"@,
        "x"@ != "row_height"@,
        "y"@ != "width"@,
        "y"@ != "row_height"@,
        "width"@ != "row_height"@,
        "name"@ != "color"@,
        "bind"@ != "name"@,
        "bind"@ != "color"@,
        "agent"@ != "folder"@,
        "agent"@ != "lane"@,
        "folder"@ != "lane"@,
        "any"@ != "codex"@,
{
    reveal_strlit("lane_count");
    reveal_strlit("brightness");
    reveal_strlit("color_gain");
    reveal_strlit("devices");
    reveal_strlit("disabled");
    reveal_strlit("settings_open");
    reveal_strlit("mini");
    reveal_strlit("mini_window");
    reveal_strlit("lanes");
    reveal_strlit("saved");
    assert("lane_count"@[0] == 'l' && "brightness"@[0] == 'b' && "color_gain"@[0] == 'c');
    assert("devices"@.len() == 7 && "disabled"@.len() == 8 && "devices"@[0] == 'd' && "disabled"@[0] == 'd');
    assert("settings_open"@[0] == 's' && "settings_open"@.len() == 13 && "saved"@.len() == 5 && "saved"@[0] == 's');
    assert("mini"@.len() == 4 && "mini_window"@.len() == 11 && "mini"@[0] == 'm' && "mini_window"@[0] == 'm');
    assert("lanes"@.len() == 5 && "lane_count"@.len() == 10 && "lanes"@[0] == 'l');
    reveal_strlit("r");
    reveal_strlit("g");
    reveal_strlit("b");
    assert("r"@[0] == 'r' && "g"@[0] == 'g' && "b"@[0] == 'b');
    reveal_strlit("x");
    reveal_strlit("y");
    reveal_strlit("width");
    reveal_strlit("row_height");
    assert("x"@[0] == 'x' && "y"@[0] == 'y' && "width"@[0] == 'w' && "row_height"@[0] == 'r');
    reveal_strlit("name");
    reveal_strlit("color");
    reveal_strlit("bind");
    assert("name"@[0] == 'n' && "color"@[0] == 'c' && "bind"@[0] == 'b');
    reveal_strlit("agent");
    reveal_strlit("folder");
    reveal_strlit("lane");
    assert("agent"@[0] == 'a' && "folder"@[0] == 'f' && "lane"@[0] == 'l');
    reveal_strlit("codex");
    reveal_strlit("any");
    assert("codex"@.len() == 5 && "any"@.len() == 3);
}

proof fn tuning_read_back(entries: Map<Seq<char>, Tree>, tuning: Tuning, known: Tuning, root: Map<Seq<char>, Tree>)
    requires
        tuning.in_range(),
        tuning.is_single(),
        root.contains_key("brightness"@),
        root.contains_key("color_gain"@),
        root["brightness"@] == with_tuning(entries, tuning)["brightness"@],
        root["color_gain"@] == with_tuning(entries, tuning)["color_gain"@],
    ensures
        tuned_by(Tree::Record(root), known) == tuning,
{
    root_keys_differ();
    a_fraction_is_read_as_written(tuning.brightness, MIN_BRIGHTNESS, ONE);
    a_fraction_is_read_as_written(tuning.color_gain.r, MIN_COLOR_GAIN, MAX_COLOR_GAIN);
    a_fraction_is_read_as_written(tuning.color_gain.g, MIN_COLOR_GAIN, MAX_COLOR_GAIN);
    a_fraction_is_read_as_written(tuning.color_gain.b, MIN_COLOR_GAIN, MAX_COLOR_GAIN);
}

proof fn names_read_back(names: Seq<Seq<char>>, set: Map<Seq<char>, ()>)
    requires
        lists(names, set),
    ensures
        names_in(texts(names)->List_0) == set,
    decreases names.len(),
{
    let items = texts(names)->List_0;
    if names.len() == 0 {
        assert(items =~= seq![]);
        assert(set =~= map![]) by {
            assert forall|key: Seq<char>| !(#[trigger] set.contains_key(key)) by {
                if set.contains_key(key) {
                    assert(names.contains(key));
                }
            }
        }
    } else {
        let fewer = names.drop_last();
        let last = names.last();
        let rest = set.remove(last);
        assert(lists(fewer, rest)) by {
            assert forall|i: int| 0 <= i < fewer.len() implies rest.contains_key(#[trigger] fewer[i]) by {
                assert(before(names[i], names[names.len() - 1]));
                one_comes_first(names[i], last);
                assert(set.contains_key(names[i]));
            }
            assert forall|key: Seq<char>| #[trigger] rest.contains_key(key) implies fewer.contains(key) by {
                assert(set.contains_key(key));
                let k = choose|k: int| 0 <= k < names.len() && names[k] == key;
                assert(fewer[k] == key);
            }
        }
        names_read_back(fewer, rest);
        assert(items.drop_last() =~= texts(fewer)->List_0);
        assert(set.contains_key(names[names.len() - 1]));
        assert(rest.insert(last, ()) =~= set);
    }
}

proof fn saves_read_back(setup: Setup, saved: Seq<Save>, agent_name: Called)
    requires
        agent_name.stands_apart(),
        setup.saved.len() == 0,
        forall|i: int|
            0 <= i < saved.len() ==> (#[trigger] saved[i]).folder.len() > 0 && saved[i].lane
                < MAX_LANES,
        forall|i: int, j: int|
            0 <= i < j < saved.len() ==> !(#[trigger] saved[i]).same(#[trigger] saved[j]),
    ensures
        with_saved(setup, Seq::new(saved.len(), |i: int| save_tree(saved[i], agent_name)), agent_name) == (Setup {
            saved,
            ..setup
        }),
    decreases saved.len(),
{
    let items = Seq::new(saved.len(), |i: int| save_tree(saved[i], agent_name));
    root_keys_differ();
    if saved.len() == 0 {
        assert(items =~= seq![]);
        assert(saved =~= setup.saved);
    } else {
        let fewer = saved.drop_last();
        assert forall|i: int, j: int| 0 <= i < j < fewer.len() implies !(#[trigger] fewer[i]).same(
            #[trigger] fewer[j],
        ) by {
            assert(!saved[i].same(saved[j]));
        }
        assert forall|i: int| 0 <= i < fewer.len() implies (#[trigger] fewer[i]).folder.len() > 0
            && fewer[i].lane < MAX_LANES by {
            assert(saved[i].folder.len() > 0);
        }
        saves_read_back(setup, fewer, agent_name);
        assert(items.drop_last() =~= Seq::new(fewer.len(), |i: int| save_tree(fewer[i], agent_name)));
        let last = saved.last();
        assert(saved[saved.len() - 1].folder.len() > 0);
        assert(save_in(save_tree(last, agent_name), agent_name) == Some(last));
        assert(!knows(fewer, last)) by {
            assert forall|i: int| 0 <= i < fewer.len() implies !(#[trigger] fewer[i]).same(last) by {
                assert(!saved[i].same(saved[saved.len() - 1]));
            }
        }
        assert(fewer.push(last) =~= saved);
    }
}

proof fn lanes_read_back(setup: Setup, lanes: Seq<(Seq<char>, Rgb)>, upto: int, agent_name: Called)
    requires
        setup.lanes.len() == lanes.len() == MAX_LANES,
        0 <= upto <= lanes.len(),
    ensures
        with_lanes(setup, Seq::new(lanes.len(), |i: int| lane_tree(lanes[i])).take(upto), agent_name) == (Setup {
            lanes: lanes.take(upto) + setup.lanes.skip(upto),
            ..setup
        }),
    decreases upto,
{
    let items = Seq::new(lanes.len(), |i: int| lane_tree(lanes[i]));
    root_keys_differ();
    if upto == 0 {
        assert(items.take(0) =~= seq![]);
        assert(lanes.take(0) + setup.lanes.skip(0) =~= setup.lanes);
    } else {
        lanes_read_back(setup, lanes, upto - 1, agent_name);
        assert(items.take(upto).drop_last() =~= items.take(upto - 1));
        let lane = lanes[upto - 1];
        a_colour_is_read_as_written(lane.1);
        let before = lanes.take(upto - 1) + setup.lanes.skip(upto - 1);
        assert(before.update(upto - 1, lane) =~= lanes.take(upto) + setup.lanes.skip(upto));
    }
}

/// **Settings survive a round trip.** What is filed of settings is read as
/// those settings.
pub proof fn settings_survive_a_round_trip(setup: Setup, agent_name: Called)
    requires
        can_be_filed(setup),
        agent_name.stands_apart(),
    ensures
        filed(setup, agent_name) is Record,
        setup_in(filed(setup, agent_name), agent_name) == setup,
{
    let tree = filed(setup, agent_name);
    let root = tree->Record_0;
    root_keys_differ();
    let counted = map!["lane_count"@ => Tree::Unsigned(setup.lane_count as u64)];
    tuning_read_back(counted, setup.tuning, Tuning::usual(), root);
    let devices = devices_tree(setup.devices);
    assert(entry(tree, "devices"@) == Some(devices));
    assert(devices_in(devices, setup.tuning) =~= setup.devices) by {
        assert forall|key: Seq<char>| setup.devices.contains_key(key) implies tuned_by(
            #[trigger] device_tree(setup.devices[key]),
            setup.tuning,
        ) == setup.devices[key] by {
            tuning_read_back(
                map![],
                setup.devices[key],
                setup.tuning,
                device_tree(setup.devices[key])->Record_0,
            );
        }
    }
    if setup.disabled != Map::<Seq<char>, ()>::empty() {
        names_read_back(names_of(setup.disabled), setup.disabled);
    }
    let fields = plain_fields(tree);
    assert(fields.disabled =~= setup.disabled);
    assert(fields.mini_window == setup.mini_window);
    let saved = Seq::new(setup.saved.len(), |i: int| save_tree(setup.saved[i], agent_name));
    assert(list_at(tree, "saved"@) == Some(saved));
    saves_read_back(fields, setup.saved, agent_name);
    let lanes = Seq::new(setup.lanes.len(), |i: int| lane_tree(setup.lanes[i]));
    assert(list_at(tree, "lanes"@) == Some(lanes));
    let with = Setup { saved: setup.saved, ..fields };
    lanes_read_back(with, setup.lanes, 6, agent_name);
    assert(lanes.take(6) =~= lanes);
    assert(setup.lanes.take(6) + with.lanes.skip(6) =~= setup.lanes);
}

proof fn keys_told_apart()
    ensures
        ({
            let keys = seq![
                "lane_count"@,
                "brightness"@,
                "color_gain"@,
                "devices"@,
                "disabled"@,
                "settings_open"@,
                "mini"@,
                "mini_window"@,
                "lanes"@,
                "saved"@,
            ];
            forall|i: int, j: int| 0 <= i < j < keys.len() ==> #[trigger] keys[i] != #[trigger] keys[j]
        }),
{
    reveal_strlit("lane_count");
    reveal_strlit("brightness");
    reveal_strlit("color_gain");
    reveal_strlit("devices");
    reveal_strlit("disabled");
    reveal_strlit("settings_open");
    reveal_strlit("mini");
    reveal_strlit("mini_window");
    reveal_strlit("lanes");
    reveal_strlit("saved");
    assert("lane_count"@[0] == 'l' && "brightness"@[0] == 'b' && "color_gain"@[0] == 'c');
    assert("devices"@.len() == 7 && "disabled"@.len() == 8 && "settings_open"@.len() == 13);
    assert("mini"@.len() == 4 && "mini_window"@.len() == 11);
    assert("lanes"@[0] == 'l' && "saved"@[0] == 's');
    assert("lane_count"@.len() == 10 && "lanes"@.len() == 5 && "saved"@.len() == 5);
}

/// **Each setting stands in the file under its own key**: the lanes in their
/// order, with their names and their colours as they are spelt; the agents that
/// are saved, with the lane's number as the window shows it, from one; the
/// tuning of all devices, and of each that has its own.
pub proof fn each_setting_stands_under_its_key(setup: Setup, agent_name: Called, i: int, key: Seq<char>)
    ensures
        ({
            let file = filed(setup, agent_name);
            &&& entry(file, "lane_count"@) == Some(Tree::Unsigned(setup.lane_count as u64))
            &&& entry(file, "brightness"@) == Some(
                Tree::Real(fraction_bits(setup.tuning.brightness)),
            )
            &&& entry(file, "settings_open"@) == Some(Tree::Bool(setup.settings_open))
            &&& entry(file, "mini"@) == Some(Tree::Bool(setup.mini))
            &&& setup.mini_window is None ==> entry(file, "mini_window"@) is None
            &&& entry(file, "lanes"@) matches Some(Tree::List(lanes)) && lanes.len()
                == setup.lanes.len() && (0 <= i < lanes.len() ==> entry(lanes[i], "name"@) == Some(
                Tree::Text(setup.lanes[i].0),
            ) && entry(lanes[i], "color"@) == Some(Tree::Text(setup.lanes[i].1.hex())))
            &&& entry(file, "saved"@) matches Some(Tree::List(saved)) && saved.len()
                == setup.saved.len() && (0 <= i < saved.len() ==> entry(saved[i], "agent"@) == Some(
                Tree::Text(setup.saved[i].agent.word(agent_name)),
            ) && entry(saved[i], "folder"@) == Some(Tree::Text(setup.saved[i].folder)) && entry(
                saved[i],
                "lane"@,
            ) == Some(Tree::Unsigned((setup.saved[i].lane + 1) as u64)))
            &&& entry(file, "devices"@) matches Some(devices) && (match entry(devices, key) {
                Some(device) => setup.devices.contains_key(key) && entry(device, "brightness"@)
                    == Some(Tree::Real(fraction_bits(setup.devices[key].brightness))),
                None => !setup.devices.contains_key(key),
            })
        }),
{
    keys_told_apart();
    let keys = seq![
        "lane_count"@,
        "brightness"@,
        "color_gain"@,
        "devices"@,
        "disabled"@,
        "settings_open"@,
        "mini"@,
        "mini_window"@,
        "lanes"@,
        "saved"@,
    ];
    assert(keys[0] != keys[1] && keys[0] != keys[2] && keys[0] != keys[3] && keys[0] != keys[4]
        && keys[0] != keys[5] && keys[0] != keys[6] && keys[0] != keys[7] && keys[0] != keys[8]
        && keys[0] != keys[9]);
    assert(keys[1] != keys[2] && keys[1] != keys[3] && keys[1] != keys[4] && keys[1] != keys[5]
        && keys[1] != keys[6] && keys[1] != keys[7] && keys[1] != keys[8] && keys[1] != keys[9]);
    assert(keys[2] != keys[3] && keys[2] != keys[4] && keys[2] != keys[5] && keys[2] != keys[6]
        && keys[2] != keys[7] && keys[2] != keys[8] && keys[2] != keys[9]);
    assert(keys[3] != keys[4] && keys[3] != keys[5] && keys[3] != keys[6] && keys[3] != keys[7]
        && keys[3] != keys[8] && keys[3] != keys[9]);
    assert(keys[4] != keys[5] && keys[4] != keys[6] && keys[4] != keys[7] && keys[4] != keys[8]
        && keys[4] != keys[9]);
    assert(keys[5] != keys[6] && keys[5] != keys[7] && keys[5] != keys[8] && keys[5] != keys[9]);
    assert(keys[6] != keys[7] && keys[6] != keys[8] && keys[6] != keys[9]);
    assert(keys[7] != keys[8] && keys[7] != keys[9]);
    assert(keys[8] != keys[9]);
    reveal_strlit("name");
    reveal_strlit("color");
    reveal_strlit("agent");
    reveal_strlit("folder");
    reveal_strlit("lane");
    assert("name"@.len() != "color"@.len());
    assert("agent"@.len() == 5 && "folder"@.len() == 6 && "lane"@.len() == 4);
}

/// **A setting is read from its own key, and what is not there is as usual**: a
/// lane's name and colour from its place in the list, a colour that cannot be
/// read being the lane's own; a count out of bounds, or a flag that is not
/// `true`, is not taken.
pub proof fn a_setting_is_read_from_its_key(tree: Tree, agent_name: Called, lanes: Seq<Tree>, i: int)
    ensures
        ({
            let setup = setup_in(tree, agent_name);
            &&& number_at(tree, "lane_count"@) matches Some(count) ==> setup.lane_count == (if 3
                <= count <= 6 {
                count as usize
            } else {
                3
            })
            &&& number_at(tree, "lane_count"@) is None ==> setup.lane_count == 3
            &&& setup.settings_open <==> flag_at(tree, "settings_open"@) == Some(true)
            &&& setup.mini <==> flag_at(tree, "mini"@) == Some(true)
            &&& real_at(tree, "brightness"@) is None ==> setup.tuning.brightness
                == crate::settings::DEFAULT_BRIGHTNESS
            &&& real_at(tree, "brightness"@) matches Some(bits) ==> setup.tuning.brightness
                == fraction(bits, MIN_BRIGHTNESS, ONE)
            &&& setup.lanes.len() == 6
            &&& 0 <= i < 6 && (list_at(tree, "lanes"@) is None || list_at(tree, "lanes"@)->0.len()
                <= i) ==> setup.lanes[i] == (Seq::<char>::empty(), crate::settings::default_color(i))
            &&& 0 <= i < 6 && list_at(tree, "lanes"@) == Some(lanes) && i < lanes.len() ==> {
                &&& text_at(lanes[i], "name"@) matches Some(name) ==> setup.lanes[i].0 == name
                &&& text_at(lanes[i], "name"@) is None ==> setup.lanes[i].0.len() == 0
                &&& setup.lanes[i].1 == (match text_at(lanes[i], "color"@) {
                    Some(spelt) => match Rgb::spelt(spelt) {
                        Some(color) => color,
                        None => crate::settings::default_color(i),
                    },
                    None => crate::settings::default_color(i),
                })
            }
        }),
{
    let fields = plain_fields(tree);
    let saved = match list_at(tree, "saved"@) {
        Some(items) => with_saved(fields, items, agent_name),
        None => fields,
    };
    if let Some(items) = list_at(tree, "saved"@) {
        saved_keeps(fields, items, agent_name);
    }
    assert(saved == (Setup { saved: saved.saved, ..fields }));
    if let Some(items) = list_at(tree, "lanes"@) {
        lanes_read(saved, items, agent_name, i);
    }
}

proof fn saved_keeps(setup: Setup, items: Seq<Tree>, agent_name: Called)
    ensures
        ({
            let after = with_saved(setup, items, agent_name);
            after == (Setup { saved: after.saved, ..setup })
        }),
    decreases items.len(),
{
    if items.len() > 0 {
        saved_keeps(setup, items.drop_last(), agent_name);
    }
}

proof fn lanes_read(setup: Setup, items: Seq<Tree>, agent_name: Called, i: int)
    requires
        setup.lanes.len() == 6,
    ensures
        ({
            let after = with_lanes(setup, items, agent_name);
            &&& after == (Setup { saved: after.saved, lanes: after.lanes, ..setup })
            &&& after.lanes.len() == 6
            &&& 0 <= i < 6 && i >= items.len() ==> after.lanes[i] == setup.lanes[i]
            &&& 0 <= i < 6 && i < items.len() ==> after.lanes[i] == (
                match text_at(items[i], "name"@) {
                    Some(name) => name,
                    None => setup.lanes[i].0,
                },
                match text_at(items[i], "color"@) {
                    Some(spelt) => match Rgb::spelt(spelt) {
                        Some(color) => color,
                        None => setup.lanes[i].1,
                    },
                    None => setup.lanes[i].1,
                },
            )
        }),
    decreases items.len(),
{
    if items.len() > 0 {
        lanes_read(setup, items.drop_last(), agent_name, i);
        if 0 <= i < items.len() - 1 {
            assert(items.drop_last()[i] == items[i]);
        }
        if items.len() <= 6 {
            lanes_read(setup, items.drop_last(), agent_name, items.len() - 1);
        }
    }
}

/// **A saved agent is read with its folder and the lane it names**, counted from
/// one; one without a folder, or for a lane that is none, is not taken.
pub proof fn a_saved_agent_is_read_with_its_lane(item: Tree, agent_name: Called)
    ensures
        match save_in(item, agent_name) {
            Some(save) => {
                &&& text_at(item, "folder"@) == Some(save.folder) && save.folder.len() > 0
                &&& number_at(item, "lane"@) == Some((save.lane + 1) as u64) && save.lane < 6
                &&& text_at(item, "agent"@) is None ==> save.agent == AgentFilter::Any
                &&& text_at(item, "agent"@) == Some("codex"@) && agent_name.word != "codex"@
                    ==> save.agent == AgentFilter::Codex
                &&& text_at(item, "agent"@) == Some(agent_name.word) ==> save.agent
                    == AgentFilter::Claude
            },
            None => text_at(item, "folder"@) is None || text_at(item, "folder"@)->0.len() == 0
                || number_at(item, "lane"@) is None || !(1 <= number_at(item, "lane"@)->0 <= 6),
        },
{
}

/// **A device's tuning is read from its own entry, the rest from what all
/// devices share.**
pub proof fn a_devices_tuning_is_read_from_its_entry(tree: Tree, key: Seq<char>, agent_name: Called)
    requires
        entry(tree, "devices"@) is Some,
        list_at(tree, "saved"@) is None,
        list_at(tree, "lanes"@) is None,
    ensures
        ({
            let setup = setup_in(tree, agent_name);
            let own = entry(entry(tree, "devices"@)->0, key);
            &&& setup.devices.contains_key(key) <==> own is Some && own->0 is Record
            &&& setup.devices.contains_key(key) ==> setup.devices[key].brightness == (match real_at(
                own->0,
                "brightness"@,
            ) {
                Some(bits) => fraction(bits, MIN_BRIGHTNESS, ONE),
                None => setup.tuning.brightness,
            })
            &&& setup.devices.contains_key(key) && entry(own->0, "color_gain"@) is None
                ==> setup.devices[key].color_gain == setup.tuning.color_gain
        }),
{
}

/// **A gain is read for its own channel.**
pub proof fn a_gain_is_read_for_its_channel(tree: Tree, gain: Tree, known: Tuning)
    requires
        entry(tree, "color_gain"@) == Some(gain),
    ensures
        ({
            let tuned = tuned_by(tree, known).color_gain;
            &&& tuned.r == (match real_at(gain, "r"@) {
                Some(bits) => fraction(bits, MIN_COLOR_GAIN, MAX_COLOR_GAIN),
                None => known.color_gain.r,
            })
            &&& tuned.g == (match real_at(gain, "g"@) {
                Some(bits) => fraction(bits, MIN_COLOR_GAIN, MAX_COLOR_GAIN),
                None => known.color_gain.g,
            })
            &&& tuned.b == (match real_at(gain, "b"@) {
                Some(bits) => fraction(bits, MIN_COLOR_GAIN, MAX_COLOR_GAIN),
                None => known.color_gain.b,
            })
        }),
{
}

} // verus!

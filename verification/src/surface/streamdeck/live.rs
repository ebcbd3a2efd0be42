//! A deck being painted: what it has been told so far, and one frame of it.
//!
//! A frame is the backlight, the window's sentence, every key that changed,
//! then a wait for a press. Asking the face for a key's letters stands between
//! the second and the third, so the frame comes in parts: [`Live::prepare`],
//! [`Live::finish`] and [`Live::listen`].

use vstd::prelude::*;

use super::canvas::{Pen, Picture};
use super::device::{Deck, Found, Told};
use super::surface::{
    APP_RUNNING, Face, Look, all_drawable, all_took, brought_up, captions, faces, known_looks,
    lane_words, lanes_on, layout_report, layout_text, looks, paint_changed, percent, percent_of,
    pictures_of, pressed, presses, presses_of, risen, rows_look, stale, stale_keys, stopped,
};
use crate::keys::Press;
use crate::surface::scene::Frame;
use crate::tracker::{KeyboardStatus, Tracker};

verus! {

/// How long a frame listens for a press, in milliseconds. A press is answered
/// at once whatever the rate.
pub const FRAME_MS: u64 = 100;

/// How long to wait before looking for the deck again, and between checks for
/// the Elgato app while the deck is held, in milliseconds.
pub const RETRY_MS: u64 = 10_000;

/// A deck being painted.
pub struct Live {
    /// The deck as found: rows, columns, model — the geometry of the rows.
    pub layout: Found,
    /// What each key was last told; `None` until it has been.
    pub shown: Vec<Option<Face>>,
    /// Every key's last reading, so a press is an edge and not a level.
    pub buttons: Vec<bool>,
    /// The backlight last sent, so the slider is written only when moved.
    pub brightness: Option<u8>,
    /// When to look for the Elgato app next, in milliseconds.
    pub next_check: u64,
    /// The lane count the window was last told about; `None` until it has
    /// been.
    pub reported: Option<usize>,
}

/// A moment and a while later, as far as the clock goes.
pub open spec fn later(now: u64, wait: u64) -> u64 {
    if now + wait > u64::MAX {
        u64::MAX
    } else {
        (now + wait) as u64
    }
}

/// What a frame starts with: the window's sentence if it has to be told one,
/// what every key should show, and which of them have to be drawn for it.
pub struct Drawing {
    pub status: Option<KeyboardStatus>,
    pub wanted: Vec<Face>,
    pub stale: Vec<usize>,
}

/// Which deck to take, unless the Elgato app has them: the first.
pub fn chosen(app_running: bool, found: &Vec<Found>) -> (r: Result<usize, String>)
    ensures
        match r {
            Ok(index) => !app_running && found@.len() > 0 && index == 0,
            Err(reason) => reason@ == (if app_running {
                "the Stream Deck app is running — quit it to let Agent F-Row drive the deck"@
            } else {
                "no Stream Deck on USB"@
            }) && (app_running || found@.len() == 0),
        },
{
    if app_running {
        return Err(APP_RUNNING.to_owned());
    }
    if found.len() == 0 {
        return Err("no Stream Deck on USB".to_owned());
    }
    Ok(0)
}

/// What the deck is told of the backlight: nothing when it is as it was.
pub open spec fn backlit(
    was: Seq<Told>,
    had: Option<u8>,
    percent: u8,
    refusal: Option<Seq<char>>,
) -> Seq<Told> {
    if had == Some(percent) {
        was
    } else {
        was.push(Told::Backlight { percent, refusal })
    }
}

impl Live {
    /// What is the same in every part of a frame.
    pub open spec fn keeps(self, other: Live) -> bool {
        self.layout == other.layout && self.next_check == other.next_check
    }

    pub fn new(layout: Found, keys: usize, now: u64) -> (live: Live)
        ensures
            live.layout == layout,
            live.shown@ == Seq::new(keys as nat, |i: int| None::<Face>),
            live.buttons@ == Seq::new(keys as nat, |i: int| false),
            live.brightness is None,
            live.next_check == later(now, RETRY_MS),
            live.reported is None,
    {
        let mut shown: Vec<Option<Face>> = Vec::new();
        let mut buttons: Vec<bool> = Vec::new();
        let mut key: usize = 0;
        while key < keys
            invariant
                key <= keys,
                shown@ == Seq::new(key as nat, |i: int| None::<Face>),
                buttons@ == Seq::new(key as nat, |i: int| false),
            decreases keys - key,
        {
            shown.push(None);
            buttons.push(false);
            key = key + 1;
            assert(shown@ =~= Seq::new(key as nat, |i: int| None::<Face>));
            assert(buttons@ =~= Seq::new(key as nat, |i: int| false));
        }
        Live {
            layout,
            shown,
            buttons,
            brightness: None,
            next_check: now.saturating_add(RETRY_MS),
            reported: None,
        }
    }

    /// Whether it is time to look for the Elgato app.
    pub fn check_due(&mut self, now: u64) -> (due: bool)
        ensures
            due == (now >= old(self).next_check),
            *final(self) == (Live {
                next_check: if due {
                    later(now, RETRY_MS)
                } else {
                    old(self).next_check
                },
                ..*old(self)
            }),
    {
        if now >= self.next_check {
            self.next_check = now.saturating_add(RETRY_MS);
            true
        } else {
            false
        }
    }

    /// The backlight, if it moved, and what the keys should show.
    pub fn prepare<D: Deck>(
        &mut self,
        deck: &mut D,
        tracker: &Tracker,
        frame: &Frame<'_>,
        now: u64,
    ) -> (r: Result<Drawing, String>)
        requires
            old(self).layout.rows * old(self).layout.cols <= usize::MAX,
        ensures
            final(self).keeps(*old(self)),
            final(self).shown == old(self).shown,
            final(self).buttons == old(self).buttons,
            final(deck).told() == backlit(
                old(deck).told(),
                old(self).brightness,
                percent_of(frame.settings@.tuned("Stream Deck"@)),
                match r {
                    Ok(_) => None,
                    Err(reason) => Some(reason@),
                },
            ),
            match r {
                Ok(drawing) => {
                    let lanes = frame.settings@.lane_count;
                    let layout = old(self).layout;
                    let wide = if layout.cols < 1 {
                        1
                    } else {
                        layout.cols as int
                    };
                    &&& final(self).brightness == Some(
                        percent_of(frame.settings@.tuned("Stream Deck"@)),
                    )
                    &&& final(self).reported == Some(lanes)
                    &&& match drawing.status {
                        Some(status) => {
                            &&& old(self).reported != Some(lanes)
                            &&& status@.surface == "Stream Deck"@
                            &&& status@.connected
                            &&& status@.driven == lanes_on(layout.rows as int, lanes as int) * wide
                            &&& status@.detail == layout_text(
                                layout.model@,
                                layout.rows as int,
                                layout.cols as nat,
                                lanes as nat,
                            )
                        },
                        None => old(self).reported == Some(lanes),
                    }
                    &&& looks(drawing.wanted@) == rows_look(
                        frame.states@,
                        frame.settings@,
                        frame.elapsed_ms,
                        Seq::new(
                            tracker@.settings.lane_count as nat,
                            |lane: int| lane_words(tracker@, lane, now),
                        ),
                        layout.rows as int,
                        wide,
                        layout.rows as int,
                    )
                    &&& drawing.stale@ == stale_keys(
                        known_looks(old(self).shown@),
                        looks(drawing.wanted@),
                        drawing.wanted@.len() as int,
                    )
                    &&& forall|j: int|
                        0 <= j < drawing.stale@.len() ==> (#[trigger] drawing.stale@[j])
                            < drawing.wanted@.len()
                },
                Err(_) => {
                    &&& old(self).brightness != Some(
                        percent_of(frame.settings@.tuned("Stream Deck"@)),
                    )
                    &&& final(self).brightness == old(self).brightness
                    &&& final(self).reported == old(self).reported
                },
            },
    {
        let percent: u8 = percent(frame.settings.tuning("Stream Deck"));
        let same: bool = match self.brightness {
            Some(sent) => sent == percent,
            None => false,
        };
        if !same {
            deck.set_brightness(percent)?;
            self.brightness = Some(percent);
        }
        let lanes: usize = frame.settings.lane_count;
        let status = layout_report(&self.layout, lanes, self.reported);
        self.reported = Some(lanes);
        let words = captions(tracker, now);
        let wide: usize = if self.layout.cols < 1 { 1 } else { self.layout.cols };
        let wanted = faces(frame, &words, self.layout.rows, wide);
        let stale = stale(&self.shown, &wanted);
        Ok(Drawing { status, wanted, stale })
    }

    /// Every key that changed, drawn with `pens`, which are theirs in the order
    /// they were named. Says how many were written.
    pub fn finish<D: Deck>(
        &mut self,
        deck: &mut D,
        wanted: &Vec<Face>,
        pens: &Vec<Pen>,
    ) -> (r: Result<usize, String>)
        requires
            pens@.len() == stale_keys(
                known_looks(old(self).shown@),
                looks(wanted@),
                wanted@.len() as int,
            ).len(),
            all_drawable(
                old(deck).size(),
                looks(wanted@),
                stale_keys(
                    known_looks(old(self).shown@),
                    looks(wanted@),
                    wanted@.len() as int,
                ),
            ),
        ensures
            final(self).keeps(*old(self)),
            final(self).buttons == old(self).buttons,
            final(self).brightness == old(self).brightness,
            final(self).reported == old(self).reported,
            ({
                let had = known_looks(old(self).shown@);
                let keys = stale_keys(had, looks(wanted@), wanted@.len() as int);
                let pictures = pictures_of(old(deck).size(), looks(wanted@), keys, pens@);
                match r {
                    Ok(written) => {
                        &&& written == keys.len()
                        &&& all_took(old(deck).told(), final(deck).told(), keys, pictures)
                        &&& known_looks(final(self).shown@) == brought_up(
                            had,
                            looks(wanted@),
                            keys,
                            keys.len() as int,
                        )
                    },
                    Err(reason) => gave_up(
                        old(deck).told(),
                        final(deck).told(),
                        keys,
                        pictures,
                        had,
                        looks(wanted@),
                        known_looks(final(self).shown@),
                        reason@,
                    ),
                }
            }),
    {
        let ghost had = known_looks(old(self).shown@);
        let ghost keys = stale_keys(had, looks(wanted@), wanted@.len() as int);
        match paint_changed(deck, &mut self.shown, wanted, pens) {
            Ok(written) => Ok(written),
            Err(said) => {
                let reason = reconnecting(said);
                assert(gave_up(
                    old(deck).told(),
                    deck.told(),
                    keys,
                    pictures_of(old(deck).size(), looks(wanted@), keys, pens@),
                    had,
                    looks(wanted@),
                    known_looks(self.shown@),
                    reason@,
                ));
                Err(reason)
            },
        }
    }

    /// Waits for the buttons to change, and says which keys went down.
    pub fn listen<D: Deck>(&mut self, deck: &mut D) -> (r: Result<Vec<usize>, String>)
        ensures
            final(self).keeps(*old(self)),
            final(self).shown == old(self).shown,
            final(self).brightness == old(self).brightness,
            final(self).reported == old(self).reported,
            final(deck).told().len() == old(deck).told().len() + 1,
            final(deck).told().drop_last() == old(deck).told(),
            final(deck).told().last() is Poll,
            final(deck).told().last()->timeout_ms == FRAME_MS,
            heard(*old(self), *final(self), final(deck).told().last()->answer, r),
    {
        let answer = deck.poll(FRAME_MS);
        assert(deck.told().drop_last() =~= old(deck).told());
        match answer {
            Ok(Some(buttons)) => {
                let keys = pressed(&self.buttons, &buttons);
                self.buttons = buttons;
                Ok(keys)
            },
            Ok(None) => Ok(Vec::new()),
            Err(reason) => Err(reconnecting(reason)),
        }
    }

    /// What the keys that went down mean.
    pub fn presses(&self, tracker: &Tracker, keys: &Vec<usize>) -> (presses: Vec<Press>)
        ensures
            presses@ == presses_of(
                tracker@,
                keys@,
                self.layout.rows as int,
                self.layout.cols as int,
                keys@.len() as int,
            ),
    {
        presses(tracker, keys, self.layout.rows, self.layout.cols)
    }
}

/// What comes of a deck's answer: the keys that are down and were not when they
/// were last read.
pub open spec fn heard(
    was: Live,
    now: Live,
    answer: Result<Option<Seq<bool>>, Seq<char>>,
    r: Result<Vec<usize>, String>,
) -> bool {
    match answer {
        Ok(Some(buttons)) => {
            &&& now.buttons@ == buttons
            &&& r is Ok
            &&& r->Ok_0@ == risen(was.buttons@, buttons, buttons.len() as int)
        },
        Ok(None) => now.buttons == was.buttons && r is Ok && r->Ok_0@ == Seq::<usize>::empty(),
        Err(reason) => now.buttons == was.buttons && r is Err && r->Err_0@ == reason
            + "; reconnecting"@,
    }
}

/// Whether the deck refused somewhere, and the surface will look for it again.
pub open spec fn gave_up(
    was: Seq<Told>,
    now: Seq<Told>,
    keys: Seq<usize>,
    pictures: Seq<Picture>,
    had: Seq<Option<Look>>,
    wanted: Seq<Look>,
    known: Seq<Option<Look>>,
    reason: Seq<char>,
) -> bool {
    exists|said: Seq<char>|
        reason == said + "; reconnecting"@ && #[trigger] stopped(
            was,
            now,
            keys,
            pictures,
            had,
            wanted,
            known,
            said,
        )
}

fn reconnecting(reason: String) -> (words: String)
    ensures
        words@ == reason@ + "; reconnecting"@,
{
    let mut words = reason;
    words.push_str("; reconnecting");
    words
}

} // verus!

//! Which terminals are in front, as far as anybody has looked lately.
//!
//! Only Waiting lanes ask, and a verdict two seconds old is invisible next to
//! the human walking back to the desk: so each is trusted for a moment.

use vstd::prelude::*;

use crate::text;

verus! {

/// How long a verdict is trusted, in milliseconds.
pub const FOREGROUND_TTL_MS: u64 = 2000;

/// Whose terminal was looked for, when, and whether it was in front.
#[derive(Debug)]
pub struct Verdict {
    pub source: String,
    pub session_id: String,
    pub in_front: bool,
    pub at: u64,
}

/// Whether a verdict is about this session.
pub open spec fn about(verdict: Verdict, source: Seq<char>, session_id: Seq<char>) -> bool {
    verdict.source@ == source && verdict.session_id@ == session_id
}

/// What was last found out about a session, and when.
pub open spec fn found_out(
    verdicts: Seq<Verdict>,
    source: Seq<char>,
    session_id: Seq<char>,
) -> Option<(bool, u64)>
    decreases verdicts.len(),
{
    if verdicts.len() == 0 {
        None
    } else if about(verdicts.last(), source, session_id) {
        Some((verdicts.last().in_front, verdicts.last().at))
    } else {
        found_out(verdicts.drop_last(), source, session_id)
    }
}

/// What may still be believed at `now`.
pub open spec fn trusted(known: Option<(bool, u64)>, now: u64) -> Option<bool> {
    match known {
        Some((in_front, at)) => if now - at < FOREGROUND_TTL_MS {
            Some(in_front)
        } else {
            None
        },
        None => None,
    }
}

/// The verdicts so far, one to a session.
#[derive(Debug)]
pub struct Verdicts {
    pub list: Vec<Verdict>,
}

/// Where the search for a session has got to: everything past `i` is about
/// somebody else.
proof fn skipped(verdicts: Seq<Verdict>, source: Seq<char>, session_id: Seq<char>, i: int)
    requires
        0 <= i <= verdicts.len(),
        forall|j: int|
            i <= j < verdicts.len() ==> !about(#[trigger] verdicts[j], source, session_id),
    ensures
        found_out(verdicts, source, session_id) == found_out(verdicts.take(i), source, session_id),
    decreases verdicts.len() - i,
{
    if i < verdicts.len() {
        assert(!about(verdicts[verdicts.len() - 1], source, session_id));
        assert(verdicts.drop_last().take(i) =~= verdicts.take(i));
        skipped(verdicts.drop_last(), source, session_id, i);
    } else {
        assert(verdicts.take(i) =~= verdicts);
    }
}

/// A verdict in the place of one about the same session changes what is known
/// of nobody else.
proof fn replaced(
    verdicts: Seq<Verdict>,
    i: int,
    verdict: Verdict,
    source: Seq<char>,
    session_id: Seq<char>,
)
    requires
        0 <= i < verdicts.len(),
        about(verdicts[i], verdict.source@, verdict.session_id@),
        !about(verdict, source, session_id),
    ensures
        found_out(verdicts.update(i, verdict), source, session_id) == found_out(
            verdicts,
            source,
            session_id,
        ),
    decreases verdicts.len(),
{
    if i < verdicts.len() - 1 {
        assert(verdicts.update(i, verdict).drop_last() =~= verdicts.drop_last().update(i, verdict));
        replaced(verdicts.drop_last(), i, verdict, source, session_id);
    } else {
        assert(verdicts.update(i, verdict).drop_last() =~= verdicts.drop_last());
    }
}

impl Verdicts {
    /// What is known of a session.
    pub open spec fn of(&self, source: Seq<char>, session_id: Seq<char>) -> Option<(bool, u64)> {
        found_out(self.list@, source, session_id)
    }

    pub fn new() -> (verdicts: Verdicts)
        ensures
            verdicts.list@ == Seq::<Verdict>::empty(),
    {
        Verdicts { list: Vec::new() }
    }

    fn position(&self, source: &str, session_id: &str) -> (at: Option<usize>)
        ensures
            match at {
                Some(at) => {
                    &&& at < self.list@.len()
                    &&& about(self.list@[at as int], source@, session_id@)
                    &&& self.of(source@, session_id@) == Some(
                        (self.list@[at as int].in_front, self.list@[at as int].at),
                    )
                    &&& forall|j: int|
                        at < j < self.list@.len() ==> !about(
                            #[trigger] self.list@[j],
                            source@,
                            session_id@,
                        )
                },
                None => self.of(source@, session_id@) is None,
            },
    {
        let mut i: usize = self.list.len();
        while i > 0
            invariant
                i <= self.list@.len(),
                forall|j: int|
                    i <= j < self.list@.len() ==> !about(
                        #[trigger] self.list@[j],
                        source@,
                        session_id@,
                    ),
            decreases i,
        {
            let verdict = &self.list[i - 1];
            if text::same(verdict.source.as_str(), source) && text::same(
                verdict.session_id.as_str(),
                session_id,
            ) {
                proof {
                    skipped(self.list@, source@, session_id@, i as int);
                }
                assert(self.list@.take(i as int).last() == self.list@[i - 1]);
                return Some(i - 1);
            }
            i = i - 1;
        }
        proof {
            skipped(self.list@, source@, session_id@, 0);
        }
        None
    }

    /// The verdict on a session, as long as it can be trusted.
    pub fn known(&self, source: &str, session_id: &str, now: u64) -> (r: Option<bool>)
        ensures
            r == trusted(self.of(source@, session_id@), now),
    {
        match self.position(source, session_id) {
            Some(at) => {
                let verdict = &self.list[at];
                if now < verdict.at || now - verdict.at < FOREGROUND_TTL_MS {
                    Some(verdict.in_front)
                } else {
                    None
                }
            },
            None => None,
        }
    }

    /// Keeps a fresh verdict, in place of the last one.
    pub fn learn(&mut self, source: &str, session_id: &str, in_front: bool, now: u64)
        ensures
            final(self).of(source@, session_id@) == Some((in_front, now)),
            forall|s: Seq<char>, i: Seq<char>|
                s != source@ || i != session_id@ ==> #[trigger] final(self).of(s, i) == old(
                    self,
                ).of(s, i),
    {
        let verdict = Verdict {
            source: source.to_owned(),
            session_id: session_id.to_owned(),
            in_front,
            at: now,
        };
        let ghost before = self.list@;
        match self.position(source, session_id) {
            Some(at) => {
                self.list.set(at, verdict);
                proof {
                    skipped(self.list@, source@, session_id@, at + 1);
                    assert(self.list@.take(at + 1).last() == verdict);
                    assert forall|s: Seq<char>, i: Seq<char>|
                        s != source@ || i != session_id@ implies #[trigger] found_out(
                        self.list@,
                        s,
                        i,
                    ) == found_out(before, s, i) by {
                        replaced(before, at as int, verdict, s, i);
                    }
                }
            },
            None => {
                self.list.push(verdict);
                assert(self.list@.drop_last() =~= before);
            },
        }
    }
}

/// **The last thing learnt of a session counts, for two seconds**: older
/// answers, and answers about other sessions, say nothing.
pub proof fn a_verdict_is_the_last_and_recent(
    verdicts: Seq<Verdict>,
    at: int,
    source: Seq<char>,
    session_id: Seq<char>,
    now: u64,
)
    requires
        0 <= at < verdicts.len(),
        verdicts[at].source@ == source,
        verdicts[at].session_id@ == session_id,
        forall|j: int|
            at < j < verdicts.len() ==> (#[trigger] verdicts[j]).source@ != source
                || verdicts[j].session_id@ != session_id,
    ensures
        trusted(found_out(verdicts, source, session_id), now) == (if now < verdicts[at].at + 2000 {
            Some(verdicts[at].in_front)
        } else {
            None
        }),
    decreases verdicts.len(),
{
    if at < verdicts.len() - 1 {
        let before = verdicts.drop_last();
        assert(before[at] == verdicts[at]);
        assert forall|j: int| at < j < before.len() implies (#[trigger] before[j]).source@ != source
            || before[j].session_id@ != session_id by {
            assert(before[j] == verdicts[j]);
        }
        a_verdict_is_the_last_and_recent(before, at, source, session_id, now);
    }
}

/// **A session nothing was learnt of has no verdict.**
pub proof fn a_stranger_has_no_verdict(
    verdicts: Seq<Verdict>,
    source: Seq<char>,
    session_id: Seq<char>,
    now: u64,
)
    requires
        forall|j: int|
            0 <= j < verdicts.len() ==> (#[trigger] verdicts[j]).source@ != source
                || verdicts[j].session_id@ != session_id,
    ensures
        trusted(found_out(verdicts, source, session_id), now) is None,
    decreases verdicts.len(),
{
    if verdicts.len() > 0 {
        let before = verdicts.drop_last();
        assert forall|j: int| 0 <= j < before.len() implies (#[trigger] before[j]).source@ != source
            || before[j].session_id@ != session_id by {
            assert(before[j] == verdicts[j]);
        }
        a_stranger_has_no_verdict(before, source, session_id, now);
    }
}

} // verus!

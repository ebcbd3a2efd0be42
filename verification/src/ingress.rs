//! The loopback endpoint agents post to.
//!
//! Hand-written, and small enough to read in one sitting, because the only
//! client is our own hook: it always sends `content-length` and
//! `connection: close`, so none of the parts of HTTP that are hard to get right
//! ever arrive.
//!
//! Reading the lines and the body, and writing the answer, is somebody else's;
//! what they mean is here.

use vstd::prelude::*;

use crate::json::{self, Json, json_of, says};
use crate::text::{self, decimal, in_small, is_white, trimmed, trimmed_end};

verus! {

/// Fixed rather than ephemeral: the hook command string we register must never
/// change, or Codex stops running it until the user re-approves.
pub const PORT: u16 = 47115;

/// Refuse anything larger than this rather than read it. The hook projects a
/// handful of short fields, so a large body means something is wrong, and a
/// serial server must never be parked reading it.
pub const MAX_BODY: usize = 65_536;

/// The one path events arrive at.
pub const HOOK_PATH: &'static str = "/hook";

/// What stands before the first white space.
pub open spec fn first_word(text: Seq<char>) -> Seq<char>
    decreases text.len(),
{
    if text.len() == 0 || is_white(text[0]) {
        seq![]
    } else {
        seq![text[0]] + first_word(text.skip(1))
    }
}

/// What stands after the first white space.
pub open spec fn after_word(text: Seq<char>) -> Seq<char> {
    text.skip(first_word(text).len() as int)
}

/// The second word of a request line, or the root.
pub open spec fn path_in(line: Seq<char>) -> Seq<char> {
    let second = first_word(text::trimmed_start(after_word(text::trimmed_start(line))));
    if second.len() == 0 {
        "/"@
    } else {
        second
    }
}

/// Whether `text` is a whole number written in digits, perhaps after a plus.
pub open spec fn is_number(text: Seq<char>) -> bool {
    let digits = unsigned_part(text);
    digits.len() > 0 && forall|i: int|
        0 <= i < digits.len() ==> '0' as u32 <= (#[trigger] digits[i]) as u32 <= '9' as u32
}

pub open spec fn unsigned_part(text: Seq<char>) -> Seq<char> {
    if text.len() > 0 && text[0] == '+' {
        text.skip(1)
    } else {
        text
    }
}

/// What a run of digits counts.
pub open spec fn counted(digits: Seq<char>) -> nat
    decreases digits.len(),
{
    if digits.len() == 0 {
        0
    } else {
        counted(digits.drop_last()) * 10 + (digits.last() as u32 - '0' as u32) as nat
    }
}

/// The length a header gives: what is no number is zero, and one past every
/// count is the largest there is.
pub open spec fn length_in(value: Seq<char>) -> usize {
    if !is_number(value) {
        0
    } else if counted(unsigned_part(value)) <= usize::MAX {
        counted(unsigned_part(value)) as usize
    } else {
        usize::MAX
    }
}

/// A request that is heard.
#[derive(Debug, PartialEq, Eq)]
pub struct Request {
    pub path: String,
    pub body: Vec<u8>,
}

/// What is known of a request so far.
#[derive(Debug)]
pub struct Head {
    pub path: String,
    pub length: usize,
    pub presented: Option<String>,
}

/// A [`Head`], its words by their characters.
pub ghost struct Opening {
    pub path: Seq<char>,
    pub length: usize,
    pub presented: Option<Seq<char>>,
}

impl View for Head {
    type V = Opening;

    open spec fn view(&self) -> Opening {
        Opening {
            path: self.path@,
            length: self.length,
            presented: text::shown(self.presented),
        }
    }
}

/// Whether a line ends the headers.
pub open spec fn ends(line: Seq<char>) -> bool {
    trimmed_end(line).len() == 0
}

impl Opening {
    /// What is known after one header more. A line without a colon is nothing.
    pub open spec fn after(self, line: Seq<char>) -> Opening {
        let kept = trimmed_end(line);
        let name = text::before_first(kept, ':');
        if name.len() == kept.len() {
            self
        } else {
            let value = trimmed(kept.skip(name.len() as int + 1));
            if in_small(trimmed(name)) == "content-length"@ {
                Opening { length: length_in(value), ..self }
            } else if in_small(trimmed(name)) == "x-agent-frow-token"@ {
                Opening { presented: Some(value), ..self }
            } else {
                self
            }
        }
    }

    /// What is known after `lines`, up to an empty one.
    pub open spec fn after_all(self, lines: Seq<Seq<char>>) -> Opening
        decreases lines.len(),
    {
        if lines.len() == 0 || ends(lines[0]) {
            self
        } else {
            self.after(lines[0]).after_all(lines.skip(1))
        }
    }

    /// How much of a body is read: all of it, or, past the limit, nothing.
    pub open spec fn body(self) -> Option<usize> {
        if self.length <= MAX_BODY {
            Some(self.length)
        } else {
            None
        }
    }

    /// Whether the request is heard: it presents the token, and its body is
    /// within the limit.
    pub open spec fn admits(self, token: Seq<char>) -> bool {
        self.presented == Some(token) && self.length <= MAX_BODY
    }
}

/// What a whole head says: its first line, then every header up to an empty
/// line.
pub open spec fn head_of(lines: Seq<Seq<char>>) -> Opening {
    if lines.len() == 0 {
        Opening { path: "/"@, length: 0, presented: None }
    } else {
        Opening { path: path_in(lines[0]), length: 0, presented: None }.after_all(lines.skip(1))
    }
}

fn word_from(all: &Vec<char>, from: usize) -> (to: usize)
    requires
        from <= all@.len(),
    ensures
        from <= to <= all@.len(),
        all@.subrange(from as int, to as int) == first_word(all@.skip(from as int)),
{
    let mut to: usize = from;
    let ghost start = all@.skip(from as int);
    assert(all@.subrange(from as int, from as int) + first_word(start) =~= first_word(start));
    while to < all.len() && !text::white(all[to])
        invariant
            from <= to <= all@.len(),
            start == all@.skip(from as int),
            all@.subrange(from as int, to as int) + first_word(all@.skip(to as int)) == first_word(
                start,
            ),
        decreases all@.len() - to,
    {
        let ghost rest = all@.skip(to as int);
        proof {
            assert(rest.skip(1) =~= all@.skip(to + 1));
            assert(all@.subrange(from as int, to + 1) =~= all@.subrange(from as int, to as int)
                + seq![all@[to as int]]);
            assert(all@.subrange(from as int, to as int) + (seq![rest[0]] + first_word(
                rest.skip(1),
            )) =~= all@.subrange(from as int, to + 1) + first_word(rest.skip(1)));
        }
        to = to + 1;
    }
    assert(first_word(all@.skip(to as int)) =~= seq![]);
    assert(all@.subrange(from as int, to as int) + seq![] =~= all@.subrange(
        from as int,
        to as int,
    ));
    to
}

fn past_white(all: &Vec<char>, from: usize) -> (to: usize)
    requires
        from <= all@.len(),
    ensures
        from <= to <= all@.len(),
        all@.skip(to as int) == text::trimmed_start(all@.skip(from as int)),
{
    let mut to: usize = from;
    while to < all.len() && text::white(all[to])
        invariant
            from <= to <= all@.len(),
            text::trimmed_start(all@.skip(to as int)) == text::trimmed_start(
                all@.skip(from as int),
            ),
        decreases all@.len() - to,
    {
        assert(all@.skip(to as int).skip(1) =~= all@.skip(to + 1));
        to = to + 1;
    }
    to
}

/// Where a request goes: the second word of its first line.
pub fn path_of(line: &str) -> (path: String)
    ensures
        path@ == path_in(line@),
{
    let all = text::chars(line);
    assert(all@.skip(0) =~= all@);
    let method: usize = past_white(&all, 0);
    let gap: usize = word_from(&all, method);
    proof {
        let rest = all@.skip(method as int);
        assert(first_word(rest).len() == gap - method);
        assert(after_word(rest) =~= all@.skip(gap as int));
    }
    let from: usize = past_white(&all, gap);
    let to: usize = word_from(&all, from);
    if from == to {
        "/".to_owned()
    } else {
        text::string_of(&all, from, to)
    }
}

fn length_of(value: &str) -> (length: usize)
    ensures
        length == length_in(value@),
{
    let all = text::chars(value);
    let from: usize = if all.len() > 0 && all[0] == '+' { 1 } else { 0 };
    let ghost digits = unsigned_part(value@);
    assert(digits =~= all@.skip(from as int));
    if from == all.len() {
        return 0;
    }
    let mut length: usize = 0;
    let mut fits = true;
    let mut i: usize = from;
    assert(digits.take(0) =~= seq![]);
    while i < all.len()
        invariant
            from <= i <= all@.len(),
            value@ == all@,
            digits == unsigned_part(value@),
            digits == all@.skip(from as int),
            digits.len() > 0,
            forall|j: int|
                0 <= j < i - from ==> '0' as u32 <= (#[trigger] digits[j]) as u32 <= '9' as u32,
            fits ==> length == counted(digits.take(i - from)),
            !fits ==> counted(digits.take(i - from)) > usize::MAX,
        decreases all@.len() - i,
    {
        let c: char = all[i];
        assert(digits[i - from] == c);
        if (c as u32) < ('0' as u32) || (c as u32) > ('9' as u32) {
            return 0;
        }
        let d: usize = (c as u32 - '0' as u32) as usize;
        proof {
            assert(digits.take(i + 1 - from).drop_last() =~= digits.take(i - from));
            assert(digits.take(i + 1 - from).last() == c);
        }
        if fits {
            if length > usize::MAX / 10 || length * 10 > usize::MAX - d {
                fits = false;
            } else {
                length = length * 10 + d;
            }
        }
        i = i + 1;
    }
    assert(digits.take(i - from) =~= digits);
    if fits {
        length
    } else {
        usize::MAX
    }
}

impl Head {
    /// A request of which only the first line is known.
    pub fn start(line: &str) -> (head: Head)
        ensures
            head@ == (Opening { path: path_in(line@), length: 0, presented: None }),
    {
        Head { path: path_of(line), length: 0, presented: None }
    }

    /// Takes one header line more, and says whether more may follow.
    pub fn take(&mut self, line: &str) -> (more: bool)
        ensures
            more == !ends(line@),
            more ==> final(self)@ == old(self)@.after(line@),
            !more ==> final(self)@ == old(self)@,
    {
        let all = text::chars(line);
        let mut size: usize = all.len();
        assert(all@.take(size as int) =~= all@);
        while size > 0 && text::white(all[size - 1])
            invariant
                size <= all@.len(),
                all@ == line@,
                trimmed_end(line@) == trimmed_end(all@.take(size as int)),
            decreases size,
        {
            assert(all@.take(size as int).drop_last() =~= all@.take(size - 1));
            size = size - 1;
        }
        let ghost kept = trimmed_end(line@);
        assert(kept == all@.take(size as int));
        if size == 0 {
            return false;
        }
        let line_kept = text::string_of(&all, 0, size);
        assert(line_kept@ =~= kept);
        let name = text::head(line_kept.as_str(), ':');
        let at: usize = text::chars(name.as_str()).len();
        proof {
            text::a_head_is_no_longer(kept, ':');
        }
        if at == size {
            return true;
        }
        let value_part = text::string_of(&all, at + 1, size);
        assert(value_part@ =~= kept.skip(at + 1));
        let value = text::trim(value_part.as_str());
        let key = text::lower(text::trim(name.as_str()).as_str());
        if text::same(key.as_str(), "content-length") {
            self.length = length_of(value.as_str());
        } else if text::same(key.as_str(), "x-agent-frow-token") {
            self.presented = Some(value);
        }
        true
    }

    /// The head that `lines` make: the first line, and each header after it,
    /// up to an empty line.
    pub fn read(lines: &Vec<String>) -> (head: Head)
        ensures
            head@ == head_of(text::views(lines@)),
    {
        let ghost all = text::views(lines@);
        if lines.len() == 0 {
            return Head { path: "/".to_owned(), length: 0, presented: None };
        }
        let mut head = Head::start(lines[0].as_str());
        let mut i: usize = 1;
        while i < lines.len()
            invariant
                1 <= i <= lines@.len(),
                all == text::views(lines@),
                head@.after_all(all.skip(i as int)) == head_of(all),
            decreases lines@.len() - i,
        {
            assert(all.skip(i as int)[0] == all[i as int]);
            assert(all.skip(i as int).skip(1) =~= all.skip(i + 1));
            if !head.take(lines[i].as_str()) {
                return head;
            }
            i = i + 1;
        }
        head
    }

    /// How much of a body to read: nothing of one that is past the limit.
    pub fn body_length(&self) -> (length: Option<usize>)
        ensures
            length == (if self@.length <= MAX_BODY {
                Some(self@.length)
            } else {
                None
            }),
    {
        if self.length <= MAX_BODY {
            Some(self.length)
        } else {
            None
        }
    }

    /// Whether the request may be heard: it presents the token, in full, and
    /// its body is within the limit.
    pub fn admitted(&self, token: &str) -> (r: bool)
        ensures
            r == (self@.presented == Some(token@) && self@.length <= MAX_BODY),
    {
        match &self.presented {
            Some(presented) => text::same(presented.as_str(), token) && self.length <= MAX_BODY,
            None => false,
        }
    }

    /// What comes of a request and the body that was read: nothing, when it is
    /// not admitted.
    pub fn request(self, token: &str, body: Vec<u8>) -> (r: Option<Request>)
        ensures
            r is Some <==> self@.admits(token@),
            r matches Some(request) ==> request.path@ == self@.path && request.body == body,
    {
        if self.admitted(token) {
            Some(Request { path: self.path, body })
        } else {
            None
        }
    }
}

/// What a request is answered: one that is heard, and one that is turned away.
pub fn answer(authorised: bool) -> (words: String)
    ensures
        words@ == "HTTP/1.1 "@ + decimal(
            if authorised {
                204
            } else {
                401
            },
        ) + " "@ + (if authorised {
            "No Content"@
        } else {
            "Unauthorized"@
        }) + "\r\ncontent-length: 0\r\nconnection: close\r\n\r\n"@,
{
    let code: u64 = if authorised { 204 } else { 401 };
    let reason = if authorised { "No Content" } else { "Unauthorized" };
    let mut words = "HTTP/1.1 ".to_owned();
    words.push_str(text::number(code).as_str());
    words.push_str(" ");
    words.push_str(reason);
    words.push_str("\r\ncontent-length: 0\r\nconnection: close\r\n\r\n");
    words
}

/// Why the port could not be bound. Binding it is also how a single instance
/// is enforced: the thing that must not be duplicated is the listener, so let
/// it be the lock.
pub fn not_bound(in_use: bool, error: &str) -> (words: String)
    ensures
        words@ == (if in_use {
            "port "@ + decimal(47115) + " is already in use — agent-frow is probably already running"@
        } else {
            "could not bind 127.0.0.1:"@ + decimal(47115) + ": "@ + error@
        }),
{
    if in_use {
        let mut words = "port ".to_owned();
        words.push_str(text::number(PORT as u64).as_str());
        words.push_str(" is already in use — agent-frow is probably already running");
        words
    } else {
        let mut words = "could not bind 127.0.0.1:".to_owned();
        words.push_str(text::number(PORT as u64).as_str());
        words.push_str(": ");
        words.push_str(error);
        words
    }
}

/// The event a request carries: one that goes to the hook's path and says
/// something in JSON. Anything else is let go without a word.
pub fn event_of(path: &str, body: &str) -> (r: Option<Json>)
    ensures
        match r {
            Some(value) => path@ == "/hook"@ && says(body@, value@),
            None => path@ != "/hook"@ || json_of(body@) is Err,
        },
{
    if !text::same(path, HOOK_PATH) {
        return None;
    }
    match json::parse(body) {
        Ok(value) => Some(value),
        Err(_) => None,
    }
}

/// **Anything larger than the limit is refused rather than read**: nothing of a
/// body that claims more is read and no request comes of it, whatever token it
/// presents; and what is within the limit is read whole.
pub proof fn a_body_past_the_limit_is_refused(lines: Seq<Seq<char>>, token: Seq<char>)
    ensures
        head_of(lines).length > MAX_BODY ==> head_of(lines).body() is None && !head_of(
            lines,
        ).admits(token),
        head_of(lines).length <= MAX_BODY ==> head_of(lines).body() == Some(
            head_of(lines).length,
        ),
        head_of(lines).admits(token) ==> head_of(lines).body() is Some,
{
}

/// A header that gives a length past the limit leaves such a length, however
/// many digits it takes to say it.
pub proof fn a_claim_past_the_limit_is_kept(opening: Opening, line: Seq<char>)
    requires
        ({
            let kept = trimmed_end(line);
            let name = text::before_first(kept, ':');
            let value = trimmed(kept.skip(name.len() as int + 1));
            &&& name.len() < kept.len()
            &&& in_small(trimmed(name)) == "content-length"@
            &&& is_number(value)
            &&& counted(unsigned_part(value)) > MAX_BODY
        }),
    ensures
        opening.after(line).length > MAX_BODY,
        opening.after(line).body() is None,
{
}

/// **Without the token nobody is heard**: headers that present no token leave
/// none presented.
pub proof fn nobody_is_heard_without_a_token(lines: Seq<Seq<char>>)
    requires
        forall|i: int|
            1 <= i < lines.len() ==> in_small(
                trimmed(text::before_first(trimmed_end(#[trigger] lines[i]), ':')),
            ) != "x-agent-frow-token"@,
    ensures
        head_of(lines).presented is None,
        forall|token: Seq<char>| !#[trigger] head_of(lines).admits(token),
{
    if lines.len() > 0 {
        let rest = lines.skip(1);
        assert forall|i: int| 0 <= i < rest.len() implies in_small(
            trimmed(text::before_first(trimmed_end(#[trigger] rest[i]), ':')),
        ) != "x-agent-frow-token"@ by {
            assert(rest[i] == lines[i + 1]);
        }
        none_present(Opening { path: path_in(lines[0]), length: 0, presented: None }, rest);
    }
}

proof fn none_present(opening: Opening, lines: Seq<Seq<char>>)
    requires
        opening.presented is None,
        forall|i: int|
            0 <= i < lines.len() ==> in_small(
                trimmed(text::before_first(trimmed_end(#[trigger] lines[i]), ':')),
            ) != "x-agent-frow-token"@,
    ensures
        opening.after_all(lines).presented is None,
    decreases lines.len(),
{
    if lines.len() > 0 && !ends(lines[0]) {
        let rest = lines.skip(1);
        assert forall|i: int| 0 <= i < rest.len() implies in_small(
            trimmed(text::before_first(trimmed_end(#[trigger] rest[i]), ':')),
        ) != "x-agent-frow-token"@ by {
            assert(rest[i] == lines[i + 1]);
        }
        none_present(opening.after(lines[0]), rest);
    }
}

/// **A body says nothing of its request**: once an empty line has ended the
/// headers, whatever follows changes nothing.
pub proof fn the_body_is_not_part_of_the_head(head: Seq<Seq<char>>, body: Seq<Seq<char>>)
    requires
        head.len() > 1,
        ends(head.last()),
    ensures
        head_of(head + body) == head_of(head),
{
    let opening = Opening { path: path_in(head[0]), length: 0, presented: None };
    assert((head + body).skip(1) =~= head.skip(1) + body);
    assert(head.skip(1).last() == head.last());
    nothing_after_the_end(opening, head.skip(1), body);
}

proof fn nothing_after_the_end(opening: Opening, lines: Seq<Seq<char>>, more: Seq<Seq<char>>)
    requires
        lines.len() > 0,
        ends(lines.last()),
    ensures
        opening.after_all(lines + more) == opening.after_all(lines),
    decreases lines.len(),
{
    assert((lines + more)[0] == lines[0]);
    if !ends(lines[0]) {
        assert((lines + more).skip(1) =~= lines.skip(1) + more);
        assert(lines.len() > 1);
        assert(lines.skip(1).last() == lines.last());
        nothing_after_the_end(opening.after(lines[0]), lines.skip(1), more);
    }
}

proof fn a_word_ends_at_a_blank(word: Seq<char>, rest: Seq<char>)
    requires
        forall|i: int| 0 <= i < word.len() ==> !is_white(#[trigger] word[i]),
        rest.len() > 0 ==> is_white(rest[0]),
    ensures
        first_word(word + rest) == word,
    decreases word.len(),
{
    let all = word + rest;
    if word.len() > 0 {
        let less = word.skip(1);
        assert forall|i: int| 0 <= i < less.len() implies !is_white(#[trigger] less[i]) by {
            assert(less[i] == word[i + 1]);
        }
        a_word_ends_at_a_blank(less, rest);
        assert(all.skip(1) =~= less + rest);
        assert(all[0] == word[0]);
        assert(seq![word[0]] + less =~= word);
    } else {
        assert(all =~= rest);
        assert(word =~= seq![]);
    }
}

/// **The path is the second word of a request's first line**, whatever the
/// method is called and whatever follows.
pub proof fn the_path_is_the_second_word(method: Seq<char>, path: Seq<char>, rest: Seq<char>)
    requires
        method.len() > 0,
        path.len() > 0,
        forall|i: int| 0 <= i < method.len() ==> !is_white(#[trigger] method[i]),
        forall|i: int| 0 <= i < path.len() ==> !is_white(#[trigger] path[i]),
        rest.len() > 0 ==> is_white(rest[0]),
    ensures
        path_in(method + seq![' '] + path + rest) == path,
{
    let line = method + seq![' '] + path + rest;
    let tail = seq![' '] + path + rest;
    assert(line =~= method + tail);
    assert(!is_white(line[0])) by {
        assert(line[0] == method[0]);
    }
    assert(text::trimmed_start(line) == line);
    a_word_ends_at_a_blank(method, tail);
    assert(after_word(line) =~= tail);
    let next = path + rest;
    assert(tail.skip(1) =~= next);
    assert(next[0] == path[0]);
    assert(text::trimmed_start(tail) == text::trimmed_start(next));
    assert(text::trimmed_start(next) == next);
    a_word_ends_at_a_blank(path, rest);
}

/// A line without a second word asks for the root.
pub proof fn a_line_without_a_path_asks_for_the_root(method: Seq<char>)
    requires
        method.len() > 0,
        forall|i: int| 0 <= i < method.len() ==> !is_white(#[trigger] method[i]),
    ensures
        path_in(method) == "/"@,
{
    assert(!is_white(method[0]));
    assert(method + Seq::<char>::empty() =~= method);
    a_word_ends_at_a_blank(method, seq![]);
    assert(after_word(method) =~= seq![]);
}

/// **A header is its name, in letters of either size, and its value**: the token
/// is what the token's header says, the length what the length's says, and any
/// other header says nothing here.
pub proof fn a_header_is_its_name_and_its_value(opening: Opening, name: Seq<char>, value: Seq<char>)
    requires
        name.len() > 0,
        !is_white(name[0]) && !is_white(name.last()),
        forall|i: int| 0 <= i < name.len() ==> #[trigger] name[i] != ':',
        value.len() > 0,
        !is_white(value[0]) && !is_white(value.last()),
    ensures
        ({
            let line = name + seq![':'] + seq![' '] + value;
            let after = opening.after(line);
            let said = in_small(name);
            &&& after.path == opening.path
            &&& said == "x-agent-frow-token"@ ==> after.presented == Some(value) && after.length
                == opening.length
            &&& said == "content-length"@ ==> after.length == length_in(value) && after.presented
                == opening.presented
            &&& said != "content-length"@ && said != "x-agent-frow-token"@ ==> after == opening
        }),
{
    let line = name + seq![':'] + seq![' '] + value;
    let rest = seq![' '] + value;
    assert(line =~= name + seq![':'] + rest);
    assert(line.last() == value.last());
    assert(trimmed_end(line) == line);
    text::before_in(name, ':', rest);
    assert(line.skip(name.len() as int + 1) =~= rest);
    text::what_is_trim_stays(name);
    text::what_is_trim_stays(value);
    assert(trimmed(rest) == value) by {
        assert(rest[0] == ' ');
        assert(rest.skip(1) =~= value);
        assert(text::trimmed_start(rest) == text::trimmed_start(value));
    }
    reveal_strlit("content-length");
    reveal_strlit("x-agent-frow-token");
    assert("content-length"@.len() != "x-agent-frow-token"@.len());
}

/// **A length is read as it is written**, and what is no number is none.
pub proof fn a_length_is_read_as_written(n: nat, value: Seq<char>)
    requires
        n <= usize::MAX,
    ensures
        length_in(decimal(n)) == n,
        (exists|i: int| 0 < i < value.len() && !('0' as u32 <= (#[trigger] value[i]) as u32 <= '9' as u32)) ==> length_in(
            value,
        ) == 0,
        value.len() == 0 ==> length_in(value) == 0,
{
    text::a_number_reads_back(n);
    let digits = decimal(n);
    assert('0' <= digits[0] <= '9');
    assert(unsigned_part(digits) == digits);
    counts_worth(digits);
    if exists|i: int| 0 < i < value.len() && !('0' as u32 <= (#[trigger] value[i]) as u32 <= '9' as u32) {
        let i = choose|i: int| 0 < i < value.len() && !('0' as u32 <= (#[trigger] value[i]) as u32 <= '9' as u32);
        let part = unsigned_part(value);
        let k = i - (value.len() - part.len());
        assert(part[k] == value[i]);
        assert(0 <= k < part.len());
        let c = part[k];
        assert(!('0' as u32 <= c as u32 <= '9' as u32));
        assert(!is_number(value));
    }
}

proof fn counts_worth(digits: Seq<char>)
    requires
        forall|i: int| 0 <= i < digits.len() ==> '0' <= #[trigger] digits[i] <= '9',
    ensures
        counted(digits) == text::worth(digits),
    decreases digits.len(),
{
    if digits.len() > 0 {
        let fewer = digits.drop_last();
        assert forall|i: int| 0 <= i < fewer.len() implies '0' <= #[trigger] fewer[i] <= '9' by {
            assert(fewer[i] == digits[i]);
        }
        counts_worth(fewer);
    }
}

/// **Only the right token is heard, and only up to 64 KiB**: a request is
/// let in exactly when it presents the token, letter for letter, and claims no
/// more.
pub proof fn only_the_right_token_is_heard(opening: Opening, token: Seq<char>)
    ensures
        opening.admits(token) <==> opening.presented == Some(token) && opening.length <= 65_536,
        opening.presented is None ==> !opening.admits(token),
        opening.presented is Some && opening.presented->0 != token ==> !opening.admits(token),
{
}

/// **A head is read line by line, up to its blank one.**
pub proof fn a_head_is_read_up_to_its_blank_line(opening: Opening, line: Seq<char>, rest: Seq<Seq<char>>)
    ensures
        trimmed_end(line).len() == 0 ==> opening.after_all(seq![line] + rest) == opening,
        trimmed_end(line).len() > 0 ==> opening.after_all(seq![line] + rest) == opening.after(
            line,
        ).after_all(rest),
{
    let lines = seq![line] + rest;
    assert(lines.skip(1) =~= rest);
}

} // verus!

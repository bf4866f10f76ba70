//! The line protocol that git speaks with a remote helper.
//!
//! Each input line is one command: `capabilities`, `option <name> [<value>]`,
//! `list`, `fetch <hash> <name>`, `push [+]<src>:<dst>`, or an empty line
//! that ends a batch. A command's words are separated by single spaces.

use vstd::prelude::*;
use vstd::string::{StrSliceExecFns, StringExecFns};
use crate::objects::strings_view;

verus! {

/// What setting an option came to.
pub enum SetOptionResult {
    /// The option was set.
    Success,
    Unsupported,
    Error { message: String },
}

/// A reference as `list` reports it.
pub struct Reference {
    pub hash: String,
    pub name: String,
}

/// What a helper does for each command; the protocol depends on nothing else.
pub trait Command {
    /// Sets the helper option `name` to `value`.
    fn set_option(&mut self, name: &str, value: &str) -> SetOptionResult;

    /// The references, each reported as `<hash> <name>`.
    fn list_references(&self) -> Vec<Reference>;

    /// Fetches the object `hash` for the reference `name`, with what it needs.
    fn fetch_object(&self, hash: &str, name: &str);

    /// Pushes the local `source` to the remote reference `destination`.
    fn push(&self, source: &str, destination: &str, force_update: bool);

    /// Finishes the work once all commands were handled.
    fn finalisation(&self, remote_name: String);
}

/// Why a command line cannot be carried out: an argument that the command
/// needs is missing.
#[derive(PartialEq, Eq, Structural, Debug, Clone, Copy)]
pub enum ProtocolError {
    OptionWithoutName,
    OptionWithoutValue,
    FetchWithoutHash,
    FetchWithoutName,
    PushWithoutSpec,
    PushWithoutSeparator,
}

/// The words of `s`, the current one having begun with `cur`, as
/// `str::split(' ')` gives them: two spaces in a row make an empty word.
pub open spec fn words_acc(s: Seq<char>, cur: Seq<char>) -> Seq<Seq<char>>
    decreases s.len(),
{
    if s.len() == 0 {
        seq![cur]
    } else if s[0] == ' ' {
        seq![cur] + words_acc(s.subrange(1, s.len() as int), Seq::empty())
    } else {
        words_acc(s.subrange(1, s.len() as int), cur.push(s[0]))
    }
}

pub open spec fn words(s: Seq<char>) -> Seq<Seq<char>> {
    words_acc(s, Seq::empty())
}

/// Splits a line at each space.
pub fn split_words(line: &str) -> (r: Vec<String>)
    ensures
        strings_view(r@) == words(line@),
{
    let len = line.unicode_len();
    let mut found: Vec<String> = Vec::new();
    let mut start: usize = 0;
    let mut i: usize = 0;
    assert(line@.subrange(0, len as int) =~= line@);
    assert(line@.subrange(0, 0) =~= Seq::<char>::empty());
    assert(strings_view(found@) + words_acc(line@, Seq::empty()) =~= words(line@));
    while i < len
        invariant
            len == line@.len(),
            start <= i <= len,
            words(line@) == strings_view(found@) + words_acc(
                line@.subrange(i as int, len as int),
                line@.subrange(start as int, i as int),
            ),
        decreases len - i,
    {
        let ghost s = line@.subrange(i as int, len as int);
        let ghost cur = line@.subrange(start as int, i as int);
        assert(s.subrange(1, s.len() as int) =~= line@.subrange(i + 1, len as int));
        assert(s[0] == line@[i as int]);
        if line.get_char(i) == ' ' {
            let ghost before = found@;
            found.push(line.substring_char(start, i).to_owned());
            assert(strings_view(found@) =~= strings_view(before).push(cur));
            assert(strings_view(found@) + words_acc(
                line@.subrange(i + 1, len as int),
                Seq::empty(),
            ) =~= strings_view(before) + (seq![cur] + words_acc(
                line@.subrange(i + 1, len as int),
                Seq::empty(),
            )));
            assert(line@.subrange(i + 1, i + 1) =~= Seq::<char>::empty());
            start = i + 1;
        } else {
            assert(cur.push(line@[i as int]) =~= line@.subrange(start as int, i + 1));
        }
        i = i + 1;
    }
    let ghost last = line@.subrange(start as int, len as int);
    let ghost before = found@;
    found.push(line.substring_char(start, len).to_owned());
    assert(line@.subrange(len as int, len as int) =~= Seq::<char>::empty());
    assert(strings_view(found@) =~= strings_view(before) + seq![last]);
    found
}

/// A command line, read.
pub enum Request {
    /// An empty line: a batch ends.
    Blank,
    Capabilities,
    SetOption { name: String, value: String },
    List,
    Fetch { hash: String, name: String },
    Push { source: String, destination: String, force: bool },
    Unknown { command: String },
}

/// A command line, as character sequences.
pub enum RequestView {
    Blank,
    Capabilities,
    SetOption { name: Seq<char>, value: Seq<char> },
    List,
    Fetch { hash: Seq<char>, name: Seq<char> },
    Push { source: Seq<char>, destination: Seq<char>, force: bool },
    Unknown { command: Seq<char> },
}

impl View for Request {
    type V = RequestView;

    open spec fn view(&self) -> RequestView {
        match self {
            Request::Blank => RequestView::Blank,
            Request::Capabilities => RequestView::Capabilities,
            Request::SetOption { name, value } => RequestView::SetOption {
                name: name@,
                value: value@,
            },
            Request::List => RequestView::List,
            Request::Fetch { hash, name } => RequestView::Fetch { hash: hash@, name: name@ },
            Request::Push { source, destination, force } => RequestView::Push {
                source: source@,
                destination: destination@,
                force: *force,
            },
            Request::Unknown { command } => RequestView::Unknown { command: command@ },
        }
    }
}

/// The index of the first `:` in `s`.
pub open spec fn first_colon(s: Seq<char>, i: int) -> Option<int>
    decreases s.len() - i,
{
    if i < 0 || i >= s.len() {
        None
    } else if s[i] == ':' {
        Some(i)
    } else {
        first_colon(s, i + 1)
    }
}

/// `push [+]<source>:<destination>`, split at the first `:`; a leading `+`
/// asks for a forced update and is not part of the source.
pub open spec fn push_request(arg: Seq<char>) -> Result<RequestView, ProtocolError> {
    let force = arg.len() > 0 && arg[0] == '+';
    match first_colon(arg, 0) {
        None => Err(ProtocolError::PushWithoutSeparator),
        Some(k) => Ok(
            RequestView::Push {
                source: arg.subrange(if force { 1 } else { 0 }, k),
                destination: arg.subrange(k + 1, arg.len() as int),
                force,
            },
        ),
    }
}

/// What a command line asks for.
pub open spec fn request_of(line: Seq<char>) -> Result<RequestView, ProtocolError> {
    let w = words(line);
    let command = w[0];
    if command.len() == 0 {
        Ok(RequestView::Blank)
    } else if command == "capabilities"@ {
        Ok(RequestView::Capabilities)
    } else if command == "option"@ {
        if w.len() < 2 {
            Err(ProtocolError::OptionWithoutName)
        } else if w.len() >= 3 {
            Ok(RequestView::SetOption { name: w[1], value: w[2] })
        } else if w[1] == "object-format"@ {
            Ok(RequestView::SetOption { name: w[1], value: "true"@ })
        } else {
            Err(ProtocolError::OptionWithoutValue)
        }
    } else if command == "list"@ {
        Ok(RequestView::List)
    } else if command == "fetch"@ {
        if w.len() < 2 {
            Err(ProtocolError::FetchWithoutHash)
        } else if w.len() < 3 {
            Err(ProtocolError::FetchWithoutName)
        } else {
            Ok(RequestView::Fetch { hash: w[1], name: w[2] })
        }
    } else if command == "push"@ {
        if w.len() < 2 {
            Err(ProtocolError::PushWithoutSpec)
        } else {
            push_request(w[1])
        }
    } else {
        Ok(RequestView::Unknown { command })
    }
}

proof fn lemma_words_nonempty(s: Seq<char>, cur: Seq<char>)
    ensures
        words_acc(s, cur).len() > 0,
    decreases s.len(),
{
    if s.len() > 0 && s[0] != ' ' {
        lemma_words_nonempty(s.subrange(1, s.len() as int), cur.push(s[0]));
    }
}

fn parse_push(arg: &String) -> (r: Result<Request, ProtocolError>)
    ensures
        match r {
            Ok(q) => Ok(q@),
            Err(e) => Err(e),
        } == push_request(arg@),
{
    let len = arg.unicode_len();
    let force = len > 0 && arg.get_char(0) == '+';
    let mut k: usize = 0;
    while k < len && arg.get_char(k) != ':'
        invariant
            len == arg@.len(),
            k <= len,
            first_colon(arg@, 0) == first_colon(arg@, k as int),
        decreases len - k,
    {
        k = k + 1;
    }
    if k == len {
        return Err(ProtocolError::PushWithoutSeparator);
    }
    let from: usize = if force {
        1
    } else {
        0
    };
    let source = arg.substring_char(from, k).to_owned();
    let destination = arg.substring_char(k + 1, len).to_owned();
    Ok(Request::Push { source, destination, force })
}

/// Reads one command line.
pub fn parse_command(line: &str) -> (r: Result<Request, ProtocolError>)
    ensures
        match r {
            Ok(q) => Ok(q@),
            Err(e) => Err(e),
        } == request_of(line@),
{
    let w = split_words(line);
    proof {
        lemma_words_nonempty(line@, Seq::empty());
    }
    assert(w@.len() > 0);
    let command = &w[0];
    if command.unicode_len() == 0 {
        return Ok(Request::Blank);
    }
    if *command == "capabilities".to_owned() {
        return Ok(Request::Capabilities);
    }
    if *command == "option".to_owned() {
        if w.len() < 2 {
            return Err(ProtocolError::OptionWithoutName);
        }
        let name = w[1].clone();
        if w.len() >= 3 {
            return Ok(Request::SetOption { name, value: w[2].clone() });
        }
        if name == "object-format".to_owned() {
            return Ok(Request::SetOption { name, value: "true".to_owned() });
        }
        return Err(ProtocolError::OptionWithoutValue);
    }
    if *command == "list".to_owned() {
        return Ok(Request::List);
    }
    if *command == "fetch".to_owned() {
        if w.len() < 2 {
            return Err(ProtocolError::FetchWithoutHash);
        }
        if w.len() < 3 {
            return Err(ProtocolError::FetchWithoutName);
        }
        return Ok(Request::Fetch { hash: w[1].clone(), name: w[2].clone() });
    }
    if *command == "push".to_owned() {
        if w.len() < 2 {
            return Err(ProtocolError::PushWithoutSpec);
        }
        return parse_push(&w[1]);
    }
    Ok(Request::Unknown { command: command.clone() })
}

} // verus!

verus! {

/// The capabilities announced, one per line, and the blank line after them.
pub open spec fn capability_lines() -> Seq<Seq<char>> {
    seq![
        "fetch"@,
        "get"@,
        "option"@,
        "push"@,
        "check-connectivity"@,
        "object-format"@,
        Seq::empty(),
    ]
}

/// The line that answers `option`.
pub open spec fn option_line(result: SetOptionResult) -> Seq<char> {
    match result {
        SetOptionResult::Success => "ok"@,
        SetOptionResult::Unsupported => "unsupported"@,
        SetOptionResult::Error { message } => "error "@ + message@,
    }
}

/// `<hash> <name>`
pub open spec fn reference_line(r: Reference) -> Seq<char> {
    r.hash@ + " "@ + r.name@
}

/// The lines that answer `list`: one per reference, then a blank line.
pub open spec fn list_lines(refs: Seq<Reference>) -> Seq<Seq<char>> {
    refs.map_values(|r: Reference| reference_line(r)) + seq![Seq::<char>::empty()]
}

/// The capabilities, one per line, ending with a blank line.
pub fn capabilities() -> (r: Vec<String>)
    ensures
        strings_view(r@) == capability_lines(),
{
    let r = vec![
        "fetch".to_owned(),
        "get".to_owned(),
        "option".to_owned(),
        "push".to_owned(),
        "check-connectivity".to_owned(),
        "object-format".to_owned(),
        String::new(),
    ];
    assert(strings_view(r@) =~= capability_lines());
    r
}

/// The answer to `option`.
pub fn option_response(result: &SetOptionResult) -> (r: String)
    ensures
        r@ == option_line(*result),
{
    match result {
        SetOptionResult::Success => "ok".to_owned(),
        SetOptionResult::Unsupported => "unsupported".to_owned(),
        SetOptionResult::Error { message } => "error ".to_owned().concat(message.as_str()),
    }
}

/// The answer to `list`.
pub fn list_response(refs: &Vec<Reference>) -> (r: Vec<String>)
    ensures
        strings_view(r@) == list_lines(refs@),
{
    let mut lines: Vec<String> = Vec::new();
    let mut i: usize = 0;
    while i < refs.len()
        invariant
            i <= refs@.len(),
            strings_view(lines@) =~= refs@.subrange(0, i as int).map_values(
                |r: Reference| reference_line(r),
            ),
        decreases refs@.len() - i,
    {
        let line = refs[i].hash.clone().concat(" ").concat(refs[i].name.as_str());
        let ghost before = lines@;
        lines.push(line);
        assert(strings_view(lines@) =~= strings_view(before).push(reference_line(refs@[i as int])));
        assert(refs@.subrange(0, i + 1).map_values(|r: Reference| reference_line(r))
            =~= refs@.subrange(0, i as int).map_values(|r: Reference| reference_line(r)).push(
            reference_line(refs@[i as int]),
        ));
        i = i + 1;
    }
    assert(refs@.subrange(0, i as int) =~= refs@);
    let ghost before = lines@;
    lines.push(String::new());
    assert(strings_view(lines@) =~= strings_view(before).push(Seq::<char>::empty()));
    lines
}

/// What the output for a command may be: a blank line for a blank line,
/// the capabilities, one `option` answer, the `list` answer for some
/// references, and nothing for the other commands.
pub open spec fn response_fits(request: RequestView, lines: Seq<Seq<char>>) -> bool {
    match request {
        RequestView::Blank => lines == seq![Seq::<char>::empty()],
        RequestView::Capabilities => lines == capability_lines(),
        RequestView::SetOption { .. } => exists|result: SetOptionResult|
            lines == seq![#[trigger] option_line(result)],
        RequestView::List => exists|refs: Seq<Reference>| lines == #[trigger] list_lines(refs),
        _ => lines.len() == 0,
    }
}

/// Carries out a command with `handler` and gives the lines to write back.
pub fn respond(request: &Request, handler: &mut impl Command) -> (r: Vec<String>)
    ensures
        response_fits(request@, strings_view(r@)),
{
    match request {
        Request::Blank => {
            let r = vec![String::new()];
            assert(strings_view(r@) =~= seq![Seq::<char>::empty()]);
            r
        },
        Request::Capabilities => capabilities(),
        Request::SetOption { name, value } => {
            let result = handler.set_option(name.as_str(), value.as_str());
            let r = vec![option_response(&result)];
            assert(strings_view(r@) =~= seq![option_line(result)]);
            r
        },
        Request::List => {
            let refs = handler.list_references();
            list_response(&refs)
        },
        Request::Fetch { hash, name } => {
            handler.fetch_object(hash.as_str(), name.as_str());
            Vec::new()
        },
        Request::Push { source, destination, force } => {
            handler.push(source.as_str(), destination.as_str(), *force);
            Vec::new()
        },
        Request::Unknown { .. } => Vec::new(),
    }
}

/// Reads one command line, carries it out with `handler`, and gives the
/// lines to write back.
pub fn handle_command(line: &str, handler: &mut impl Command) -> (r: Result<
    Vec<String>,
    ProtocolError,
>)
    ensures
        match request_of(line@) {
            Ok(q) => r is Ok && response_fits(q, strings_view(r->Ok_0@)),
            Err(e) => r == Err::<Vec<String>, ProtocolError>(e),
        },
{
    match parse_command(line) {
        Ok(request) => Ok(respond(&request, handler)),
        Err(e) => Err(e),
    }
}

/// The value last set for `name`.
pub open spec fn latest_setting(entries: Seq<(Seq<char>, Seq<char>)>, name: Seq<char>) -> Option<
    Seq<char>,
>
    decreases entries.len(),
{
    if entries.len() == 0 {
        None
    } else if entries.last().0 == name {
        Some(entries.last().1)
    } else {
        latest_setting(entries.drop_last(), name)
    }
}

/// Helper options as they were set, the last setting of a name winning.
/// They are kept as a list, newest last, rather than in a `HashMap`: vstd's
/// specification of a map keyed by `String` is too weak to prove a lookup.
pub struct OptionSettings {
    entries: Vec<(String, String)>,
}

impl OptionSettings {
    pub closed spec fn entries_view(&self) -> Seq<(Seq<char>, Seq<char>)> {
        self.entries@.map_values(|e: (String, String)| (e.0@, e.1@))
    }

    /// The value of the option `name`, if it was set.
    pub open spec fn value(&self, name: Seq<char>) -> Option<Seq<char>> {
        latest_setting(self.entries_view(), name)
    }

    pub fn new() -> (r: Self)
        ensures
            forall|name: Seq<char>| #[trigger] r.value(name) is None,
    {
        let r = OptionSettings { entries: Vec::new() };
        assert(r.entries_view() =~= Seq::<(Seq<char>, Seq<char>)>::empty());
        r
    }

    /// Sets the option `name` to `value`.
    pub fn set(&mut self, name: &str, value: &str)
        ensures
            final(self).value(name@) == Some(value@),
            forall|other: Seq<char>|
                other != name@ ==> #[trigger] final(self).value(other) == old(self).value(other),
    {
        let ghost before = self.entries_view();
        self.entries.push((name.to_owned(), value.to_owned()));
        assert(self.entries_view() =~= before.push((name@, value@)));
        assert(self.entries_view().drop_last() =~= before);
    }

    /// The value of the option `name`, if it was set.
    pub fn get(&self, name: &str) -> (r: Option<String>)
        ensures
            match r {
                Some(v) => self.value(name@) == Some(v@),
                None => self.value(name@) is None,
            },
    {
        let ghost all = self.entries_view();
        let key = name.to_owned();
        let mut i: usize = self.entries.len();
        assert(all.subrange(0, i as int) =~= all);
        while i > 0
            invariant
                i <= self.entries@.len(),
                all == self.entries_view(),
                key@ == name@,
                latest_setting(all, name@) == latest_setting(all.subrange(0, i as int), name@),
            decreases i,
        {
            let ghost part = all.subrange(0, i as int);
            assert(part.last() == all[i - 1]);
            if self.entries[i - 1].0 == key {
                return Some(self.entries[i - 1].1.clone());
            }
            assert(part.drop_last() =~= all.subrange(0, i - 1));
            i = i - 1;
        }
        None
    }
}

/// A helper with no store behind it: it reports the references it was
/// given and remembers options. It holds no objects, so a fetch or a push
/// has nothing to move.
pub struct BaseCommandHandler {
    pub options: OptionSettings,
    pub references: Vec<Reference>,
}

impl BaseCommandHandler {
    pub fn new(references: Vec<Reference>) -> (r: Self)
        ensures
            r.references@ == references@,
            forall|name: Seq<char>| #[trigger] r.options.value(name) is None,
    {
        BaseCommandHandler { options: OptionSettings::new(), references }
    }
}

impl Default for BaseCommandHandler {
    /// A stub with one branch, `refs/heads/master`.
    fn default() -> (r: Self)
        ensures
            r.references@.len() == 1,
            r.references@[0].hash@ == "5c3d2a42d88f8e13a1f50be0c46357b8f7760860"@,
            r.references@[0].name@ == "refs/heads/master"@,
            forall|name: Seq<char>| #[trigger] r.options.value(name) is None,
    {
        let master = Reference {
            hash: "5c3d2a42d88f8e13a1f50be0c46357b8f7760860".to_owned(),
            name: "refs/heads/master".to_owned(),
        };
        BaseCommandHandler::new(vec![master])
    }
}

fn copy_reference(r: &Reference) -> (c: Reference)
    ensures
        c.hash@ == r.hash@,
        c.name@ == r.name@,
{
    Reference { hash: r.hash.clone(), name: r.name.clone() }
}

impl Command for BaseCommandHandler {
    fn set_option(&mut self, name: &str, value: &str) -> (r: SetOptionResult)
        ensures
            r == SetOptionResult::Success,
            final(self).options.value(name@) == Some(value@),
    {
        self.options.set(name, value);
        SetOptionResult::Success
    }

    fn list_references(&self) -> (r: Vec<Reference>)
        ensures
            r@.len() == self.references@.len(),
            forall|i: int|
                0 <= i < r@.len() ==> reference_line(#[trigger] r@[i]) == reference_line(
                    self.references@[i],
                ),
    {
        let mut r: Vec<Reference> = Vec::new();
        let mut i: usize = 0;
        while i < self.references.len()
            invariant
                i <= self.references@.len(),
                r@.len() == i,
                forall|j: int|
                    0 <= j < i ==> reference_line(#[trigger] r@[j]) == reference_line(
                        self.references@[j],
                    ),
            decreases self.references@.len() - i,
        {
            r.push(copy_reference(&self.references[i]));
            i = i + 1;
        }
        r
    }

    fn fetch_object(&self, hash: &str, name: &str) {
    }

    fn push(&self, source: &str, destination: &str, force_update: bool) {
    }

    fn finalisation(&self, remote_name: String) {
    }
}

} // verus!

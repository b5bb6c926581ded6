//! The user's own way in: requests, one to a line, and what they are answered.

use crate::manifest;
use crate::manifest::BackupPolicy;
use crate::number;
use crate::reclaim::{Reclaimed, Refused, RefusedModel};
use crate::text;
use vstd::prelude::*;
use vstd::string::*;

verus! {

/// A request.
#[derive(Debug, PartialEq, Eq)]
pub enum Command {
    /// Turn a file that the cloud holds back into a placeholder.
    Evict(String),
    /// Keep a file, or everything below a directory, on the device.
    Pin(String),
    Unpin(String),
    /// List the files without content below a directory.
    Pending(String),
    /// One report, for a person.
    Status,
    /// A state line now and one per change.
    Watch,
    /// An empty line.
    Nothing,
    Unknown(String),
}

/// A request over texts.
#[verifier::ext_equal]
pub enum CommandModel {
    Evict(Seq<char>),
    Pin(Seq<char>),
    Unpin(Seq<char>),
    Pending(Seq<char>),
    Status,
    Watch,
    Nothing,
    Unknown(Seq<char>),
}

impl View for Command {
    type V = CommandModel;

    open spec fn view(&self) -> CommandModel {
        match *self {
            Command::Evict(arg) => CommandModel::Evict(arg@),
            Command::Pin(arg) => CommandModel::Pin(arg@),
            Command::Unpin(arg) => CommandModel::Unpin(arg@),
            Command::Pending(arg) => CommandModel::Pending(arg@),
            Command::Status => CommandModel::Status,
            Command::Watch => CommandModel::Watch,
            Command::Nothing => CommandModel::Nothing,
            Command::Unknown(verb) => CommandModel::Unknown(verb@),
        }
    }
}

/// A text without the white space at its end.
pub open spec fn trimmed_end(s: Seq<char>) -> Seq<char>
    decreases s.len(),
{
    if s.len() > 0 && text::is_space(s.last()) {
        trimmed_end(s.drop_last())
    } else {
        s
    }
}

/// A text without the white space around it.
pub open spec fn trimmed(s: Seq<char>) -> Seq<char> {
    trimmed_end(s.skip(text::spaces(s) as int))
}

/// The first word of a request, and what stands behind the space after it.
pub open spec fn verb_of(s: Seq<char>) -> (Seq<char>, Seq<char>) {
    let at = text::position(s, ' ');
    if at < s.len() {
        (s.take(at as int), s.skip(at as int + 1))
    } else {
        (s, Seq::empty())
    }
}

/// The request that a line makes. The argument goes through unchanged: only
/// what confines a path decides what it means.
pub open spec fn command_of(line: Seq<char>) -> CommandModel {
    let (verb, arg) = verb_of(trimmed(line));
    if verb == "evict"@ {
        CommandModel::Evict(arg)
    } else if verb == "pin"@ {
        CommandModel::Pin(arg)
    } else if verb == "unpin"@ {
        CommandModel::Unpin(arg)
    } else if verb == "pending"@ {
        CommandModel::Pending(arg)
    } else if verb == "status"@ {
        CommandModel::Status
    } else if verb == "watch"@ {
        CommandModel::Watch
    } else if verb.len() == 0 {
        CommandModel::Nothing
    } else {
        CommandModel::Unknown(verb)
    }
}

/// Remove the white space around a text.
pub fn trim(s: &str) -> (out: String)
    ensures
        out@ == trimmed(s@),
{
    let chars = text::chars_of(s);
    let total = chars.len();
    let mut from: usize = 0;
    let ghost lead = text::spaces(s@) as int;
    proof {
        text::lemma_spaces(s@);
    }
    while from < total && text::space(chars[from])
        invariant
            total == chars@.len(),
            chars@ == s@,
            from <= lead,
            lead <= s@.len(),
            lead == text::spaces(s@),
            lead < s@.len() ==> !text::is_space(s@[lead]),
            forall|i: int| 0 <= i < lead ==> text::is_space(s@[i]),
        decreases total - from,
    {
        from = from + 1;
    }
    assert(from == lead);
    let mut to: usize = total;
    let ghost body = s@.skip(lead);
    assert(body.take(to - from) =~= body);
    while to > from && text::space(chars[to - 1])
        invariant
            from <= to <= total,
            total == chars@.len(),
            chars@ == s@,
            from == lead,
            body == s@.skip(lead),
            trimmed_end(body.take(to - from)) == trimmed_end(body),
        decreases to,
    {
        proof {
            let some = body.take(to - from);
            assert(some.last() == chars@[to - 1]);
            assert(some.drop_last() =~= body.take(to - 1 - from));
        }
        to = to - 1;
    }
    proof {
        let some = body.take(to - from);
        if to > from {
            assert(some.last() == chars@[to - 1]);
        }
        assert(trimmed_end(some) == some);
    }
    let mut out: Vec<char> = Vec::new();
    let mut i: usize = from;
    assert(out@ =~= body.take(0));
    while i < to
        invariant
            from <= i <= to <= total,
            total == chars@.len(),
            chars@ == s@,
            from == lead,
            body == s@.skip(lead),
            out@ == body.take(i - from),
        decreases to - i,
    {
        out.push(chars[i]);
        i = i + 1;
        assert(out@ =~= body.take(i - from));
    }
    text::text_of(&out)
}

/// Read a request.
pub fn parse_command(line: &str) -> (c: Command)
    ensures
        c@ == command_of(line@),
{
    let body = trim(line);
    let chars = text::chars_of(body.as_str());
    let ghost s = body@;
    let mut at: usize = 0;
    while at < chars.len() && chars[at] != ' '
        invariant
            at <= chars@.len(),
            chars@ == s,
            forall|i: int| 0 <= i < at ==> s[i] != ' ',
        decreases chars@.len() - at,
    {
        at = at + 1;
    }
    proof {
        text::lemma_position_at(s, ' ', at as int);
    }
    let total = chars.len();
    let mut verb: Vec<char> = Vec::new();
    let mut arg: Vec<char> = Vec::new();
    let mut i: usize = 0;
    while i < total
        invariant
            i <= total,
            total == chars@.len(),
            chars@ == s,
            at <= total,
            verb@ == s.take(if i < at {
                i as int
            } else {
                at as int
            }),
            arg@ == if i > at {
                s.subrange(at + 1, i as int)
            } else {
                Seq::empty()
            },
        decreases total - i,
    {
        if i < at {
            verb.push(chars[i]);
            assert(verb@ =~= s.take(i + 1));
        } else if i > at {
            arg.push(chars[i]);
            assert(arg@ =~= s.subrange(at + 1, i + 1));
        } else {
            assert(s.subrange(at + 1, i + 1) =~= Seq::empty());
        }
        i = i + 1;
    }
    proof {
        if at < total {
            assert(arg@ =~= s.skip(at + 1));
        } else {
            assert(s.take(at as int) =~= s);
        }
    }
    let verb = text::text_of(&verb);
    let arg = text::text_of(&arg);
    if text::same(verb.as_str(), "evict") {
        Command::Evict(arg)
    } else if text::same(verb.as_str(), "pin") {
        Command::Pin(arg)
    } else if text::same(verb.as_str(), "unpin") {
        Command::Unpin(arg)
    } else if text::same(verb.as_str(), "pending") {
        Command::Pending(arg)
    } else if text::same(verb.as_str(), "status") {
        Command::Status
    } else if text::same(verb.as_str(), "watch") {
        Command::Watch
    } else if verb.as_str().is_empty() {
        Command::Nothing
    } else {
        Command::Unknown(verb)
    }
}

/// How a refusal is shown, given how what it carries is.
pub open spec fn refusal_shape(why: RefusedModel, inside: Seq<char>) -> Seq<char> {
    match why {
        RefusedModel::AlreadyDehydrated => "AlreadyDehydrated"@,
        RefusedModel::NotUploaded => "NotUploaded"@,
        RefusedModel::ChangedSinceUpload => "ChangedSinceUpload"@,
        RefusedModel::UploadPending => "UploadPending"@,
        RefusedModel::Pinned { via } => "Pinned { via: "@ + inside + " }"@,
        RefusedModel::NotEligible(reason) => "NotEligible("@ + inside + ")"@,
    }
}

/// How what a refusal carries is shown.
pub open spec fn refusal_inside(why: RefusedModel) -> Seq<char> {
    match why {
        RefusedModel::Pinned { via } => text::path_quoted(via),
        RefusedModel::NotEligible(reason) => text::quoted(reason),
        _ => Seq::empty(),
    }
}

/// Show a refusal, given how what it carries is shown.
pub fn refusal_text(why: &Refused, inside: &str) -> (out: String)
    ensures
        out@ == refusal_shape(why@, inside@),
{
    match why {
        Refused::AlreadyDehydrated => "AlreadyDehydrated".to_owned(),
        Refused::NotUploaded => "NotUploaded".to_owned(),
        Refused::ChangedSinceUpload => "ChangedSinceUpload".to_owned(),
        Refused::UploadPending => "UploadPending".to_owned(),
        Refused::Pinned { via: _ } => {
            let mut out: String = "Pinned { via: ".to_owned();
            out.append(inside);
            out.append(" }");
            out
        },
        Refused::NotEligible(_) => {
            let mut out: String = "NotEligible(".to_owned();
            out.append(inside);
            out.append(")");
            out
        },
    }
}

/// Show a refusal.
pub fn show_refusal(why: &Refused) -> (out: String)
    ensures
        out@ == refusal_shape(why@, refusal_inside(why@)),
{
    let inside: String = match why {
        Refused::Pinned { via } => text::quote_path(via.as_str()),
        Refused::NotEligible(reason) => text::quote(reason.as_str()),
        _ => String::new(),
    };
    refusal_text(why, inside.as_str())
}

/// The reply to a request that came to a refusal, or to an error.
pub open spec fn refused_reply(prefix: Seq<char>, why: RefusedModel) -> Seq<char> {
    prefix + refusal_shape(why, refusal_inside(why))
}

/// Answer a request to evict a file.
pub fn evict_reply(r: &Result<Result<Reclaimed, Refused>, String>) -> (out: String)
    ensures
        out@ == match *r {
            Ok(Ok(got)) => "reclaimed "@ + number::digits(got.bytes as nat) + " bytes"@,
            Ok(Err(why)) => refused_reply("kept: "@, why@),
            Err(e) => "error: "@ + e@,
        },
{
    match r {
        Ok(Ok(got)) => {
            let mut out: String = "reclaimed ".to_owned();
            out.append(number::decimal(got.bytes).as_str());
            out.append(" bytes");
            out
        },
        Ok(Err(why)) => {
            let mut out: String = "kept: ".to_owned();
            out.append(show_refusal(why).as_str());
            out
        },
        Err(e) => error_reply(e.as_str()),
    }
}

/// Answer a request that failed.
pub fn error_reply(e: &str) -> (out: String)
    ensures
        out@ == "error: "@ + e@,
{
    let mut out: String = "error: ".to_owned();
    out.append(e);
    out
}

/// Answer a request to set or clear a pin.
pub fn pin_reply(on: bool, r: &Result<Result<(), Refused>, String>) -> (out: String)
    ensures
        out@ == match *r {
            Ok(Ok(_)) => if on {
                "pinned"@
            } else {
                "unpinned"@
            },
            Ok(Err(why)) => refused_reply("error: "@, why@),
            Err(e) => "error: "@ + e@,
        },
{
    match r {
        Ok(Ok(_)) => if on {
            "pinned".to_owned()
        } else {
            "unpinned".to_owned()
        },
        Ok(Err(why)) => error_reply(show_refusal(why).as_str()),
        Err(e) => error_reply(e.as_str()),
    }
}

/// Answer a request for the files without content, one to a line.
pub fn pending_reply(r: &Result<Result<Vec<String>, Refused>, String>) -> (out: String)
    ensures
        out@ == match *r {
            Ok(Ok(list)) => text::join(text::texts(list@), "\n"@),
            Ok(Err(why)) => refused_reply("error: "@, why@),
            Err(e) => "error: "@ + e@,
        },
{
    match r {
        Ok(Ok(list)) => text::join_with(list, "\n"),
        Ok(Err(why)) => error_reply(show_refusal(why).as_str()),
        Err(e) => error_reply(e.as_str()),
    }
}

/// How a list is shown, given how each of its items is.
pub open spec fn list_shape(shown: Seq<Seq<char>>) -> Seq<char> {
    "["@ + text::join(shown, ", "@) + "]"@
}

/// Show a list, given how each of its items is shown.
pub fn list_text(shown: &Vec<String>) -> (out: String)
    ensures
        out@ == list_shape(text::texts(shown@)),
{
    let mut out: String = "[".to_owned();
    out.append(text::join_with(shown, ", ").as_str());
    out.append("]");
    out
}

/// The line of a report that tells of other mounts over the same files, given
/// how each is shown.
pub open spec fn exposure_line(shown: Seq<Seq<char>>) -> Seq<char> {
    if shown.len() == 0 {
        "no other mount exposes these files"@
    } else {
        "WARNING: "@ + number::digits(shown.len()) + " other mount(s) bypass hydration: "@
            + list_shape(shown)
    }
}

/// A report: what is unsent, what a backup would miss, and who else exposes the
/// files.
pub open spec fn report(unsent: nat, missing: nat, shown: Seq<Seq<char>>) -> Seq<char> {
    number::digits(unsent) + " unsent\n"@ + manifest::status_text(BackupPolicy::Exclude, missing)
        + "\n"@ + exposure_line(shown)
}

/// Write a report, given how each other mount is shown.
pub fn report_text(unsent: usize, missing: usize, shown: &Vec<String>) -> (out: String)
    ensures
        out@ == report(unsent as nat, missing as nat, text::texts(shown@)),
{
    let mut out: String = number::decimal(unsent as u64);
    out.append(" unsent\n");
    out.append(manifest::status_line(BackupPolicy::Exclude, missing).as_str());
    out.append("\n");
    let ghost so_far = out@;
    let total = shown.len();
    if total == 0 {
        out.append("no other mount exposes these files");
    } else {
        let mut warning: String = "WARNING: ".to_owned();
        warning.append(number::decimal(total as u64).as_str());
        warning.append(" other mount(s) bypass hydration: ");
        warning.append(list_text(shown).as_str());
        out.append(warning.as_str());
    }
    assert(text::texts(shown@).len() == total);
    assert(out@ == so_far + exposure_line(text::texts(shown@)));
    out
}

/// How each of some texts is shown.
pub open spec fn all_quoted(v: Seq<Seq<char>>) -> Seq<Seq<char>> {
    v.map_values(|s: Seq<char>| text::quoted(s))
}

/// Answer a request for a report.
pub fn status_reply(unsent: usize, missing: usize, exposures: &Vec<String>) -> (out: String)
    ensures
        out@ == report(unsent as nat, missing as nat, all_quoted(text::texts(exposures@))),
{
    let mut shown: Vec<String> = Vec::new();
    let ghost want = all_quoted(text::texts(exposures@));
    let mut i: usize = 0;
    assert(text::texts(shown@) =~= want.take(0));
    while i < exposures.len()
        invariant
            i <= exposures@.len(),
            want == all_quoted(text::texts(exposures@)),
            text::texts(shown@) == want.take(i as int),
        decreases exposures@.len() - i,
    {
        let ghost had = text::texts(shown@);
        let q = text::quote(exposures[i].as_str());
        let ghost m = q@;
        shown.push(q);
        assert(want[i as int] == m);
        assert(text::texts(shown@) =~= had.push(m));
        assert(want.take(i + 1) =~= want.take(i as int).push(m));
        i = i + 1;
    }
    assert(want.take(i as int) =~= want);
    report_text(unsent, missing, &shown)
}

/// Answer a request that is not one.
pub fn unknown_reply(verb: &str) -> (out: String)
    ensures
        out@ == "unknown command: "@ + verb@,
{
    let mut out: String = "unknown command: ".to_owned();
    out.append(verb);
    out
}

/// White space around a text is dropped, whatever there is of it, and nothing else.
pub proof fn law_white_space_around_is_dropped(a: Seq<char>, s: Seq<char>, b: Seq<char>)
    requires
        forall|i: int| 0 <= i < a.len() ==> text::is_space(#[trigger] a[i]),
        forall|i: int| 0 <= i < b.len() ==> text::is_space(#[trigger] b[i]),
        s.len() > 0 ==> !text::is_space(s[0]) && !text::is_space(s.last()),
        s.len() == 0 ==> b.len() == 0,
    ensures
        trimmed(a + s + b) == s,
    decreases a.len(),
{
    let all = a + s + b;
    text::lemma_spaces(all);
    let k = text::spaces(all) as int;
    assert(k >= a.len()) by {
        if k < a.len() {
            assert(all[k] == a[k]);
        }
    }
    assert(k <= a.len()) by {
        if k > a.len() {
            assert(text::is_space(all[a.len() as int]));
            if s.len() > 0 {
                assert(all[a.len() as int] == s[0]);
            }
        }
    }
    assert(all.skip(k) =~= s + b);
    lemma_trimmed_end(s, b);
}

proof fn lemma_trimmed_end(s: Seq<char>, b: Seq<char>)
    requires
        forall|i: int| 0 <= i < b.len() ==> text::is_space(#[trigger] b[i]),
        s.len() > 0 ==> !text::is_space(s.last()),
    ensures
        trimmed_end(s + b) == s,
    decreases b.len(),
{
    if b.len() == 0 {
        assert(s + b =~= s);
    } else {
        let less = b.drop_last();
        assert forall|i: int| 0 <= i < less.len() implies text::is_space(#[trigger] less[i]) by {
            assert(less[i] == b[i]);
        }
        lemma_trimmed_end(s, less);
        assert((s + b).last() == b[b.len() - 1]);
        assert((s + b).drop_last() =~= s + less);
    }
}

/// A line is a verb, and behind the first space its argument, which may hold spaces
/// itself. White space around the line does not matter.
pub proof fn law_a_line_is_a_verb_and_its_argument(
    verb: Seq<char>,
    arg: Seq<char>,
    a: Seq<char>,
    b: Seq<char>,
)
    requires
        verb.len() > 0,
        forall|i: int| 0 <= i < verb.len() ==> !text::is_space(#[trigger] verb[i]),
        arg.len() > 0 && !text::is_space(arg.last()),
        forall|i: int| 0 <= i < a.len() ==> text::is_space(#[trigger] a[i]),
        forall|i: int| 0 <= i < b.len() ==> text::is_space(#[trigger] b[i]),
    ensures
        ({
            let line = a + (verb + seq![' '] + arg) + b;
            let bare = a + verb + b;
            &&& verb_of(trimmed(line)) == (verb, arg)
            &&& verb_of(trimmed(bare)) == (verb, Seq::<char>::empty())
            &&& verb == "evict"@ ==> command_of(line) == CommandModel::Evict(arg)
            &&& verb == "pin"@ ==> command_of(line) == CommandModel::Pin(arg)
            &&& verb == "unpin"@ ==> command_of(line) == CommandModel::Unpin(arg)
            &&& verb == "pending"@ ==> command_of(line) == CommandModel::Pending(arg)
            &&& verb == "status"@ ==> command_of(line) is Status && command_of(bare) is Status
            &&& verb == "watch"@ ==> command_of(line) is Watch && command_of(bare) is Watch
            &&& verb != "evict"@ && verb != "pin"@ && verb != "unpin"@ && verb != "pending"@ && verb
                != "status"@ && verb != "watch"@ ==> command_of(line) == CommandModel::Unknown(verb)
                && command_of(bare) == CommandModel::Unknown(verb)
        }),
{
    let s = verb + seq![' '] + arg;
    reveal_strlit("evict");
    reveal_strlit("pin");
    reveal_strlit("unpin");
    reveal_strlit("pending");
    reveal_strlit("status");
    reveal_strlit("watch");
    assert(s[0] == verb[0]);
    assert(s.last() == arg.last());
    assert(!text::is_space(verb[verb.len() - 1]));
    law_white_space_around_is_dropped(a, s, b);
    law_white_space_around_is_dropped(a, verb, b);
    assert forall|i: int| 0 <= i < verb.len() implies s[i] != ' ' by {
        assert(!text::is_space(verb[i]));
        assert(s[i] == verb[i]);
    }
    text::lemma_position_at(s, ' ', verb.len() as int);
    assert forall|i: int| 0 <= i < verb.len() implies verb[i] != ' ' by {
        assert(!text::is_space(verb[i]));
    }
    text::lemma_position_at(verb, ' ', verb.len() as int);
    assert(s.take(verb.len() as int) =~= verb);
    assert(s.skip(verb.len() as int + 1) =~= arg);
}

/// A line of white space says nothing.
pub proof fn law_an_empty_line_says_nothing(a: Seq<char>)
    requires
        forall|i: int| 0 <= i < a.len() ==> text::is_space(#[trigger] a[i]),
    ensures
        command_of(a) is Nothing,
{
    let empty = Seq::<char>::empty();
    reveal_strlit("evict");
    reveal_strlit("pin");
    reveal_strlit("unpin");
    reveal_strlit("pending");
    reveal_strlit("status");
    reveal_strlit("watch");
    law_white_space_around_is_dropped(a, empty, empty);
    assert(a + empty + empty =~= a);
    text::lemma_position(empty, ' ');
}

/// A status starts with what is unsent, and a warning counts the mounts that it
/// lists.
pub proof fn law_a_status_counts(unsent: nat, absent: nat, shown: Seq<Seq<char>>)
    ensures
        (number::digits(unsent) + " unsent\n"@).is_prefix_of(report(unsent, absent, shown)),
        report(unsent, absent, shown).skip(
            report(unsent, absent, shown).len() - exposure_line(shown).len(),
        ) == exposure_line(shown),
        shown.len() > 0 ==> ("WARNING: "@ + number::digits(shown.len())).is_prefix_of(
            exposure_line(shown),
        ),
{
    let r = report(unsent, absent, shown);
    assert(r.skip(r.len() - exposure_line(shown).len()) =~= exposure_line(shown));
    assert((number::digits(unsent) + " unsent\n"@).is_prefix_of(r));
}

} // verus!

//! The command lines of the two programs.

use crate::number;
use crate::paths;
use crate::text;
use crate::upload::QUIET_PERIOD;
use vstd::prelude::*;
use vstd::string::*;

verus! {

/// What the daemon was told on its command line.
#[derive(Debug, PartialEq, Eq)]
pub struct Args {
    pub mount: String,
    pub cloud: String,
    pub socket: String,
    /// In nanoseconds.
    pub debounce: u128,
}

/// The daemon's command line over texts.
#[verifier::ext_equal]
pub struct ArgsModel {
    pub mount: Seq<char>,
    pub cloud: Seq<char>,
    pub socket: Seq<char>,
    pub debounce: u128,
}

impl View for Args {
    type V = ArgsModel;

    open spec fn view(&self) -> ArgsModel {
        ArgsModel {
            mount: self.mount@,
            cloud: self.cloud@,
            socket: self.socket@,
            debounce: self.debounce,
        }
    }
}

/// How many nanoseconds a second has.
pub const SECOND: u128 = 1_000_000_000;

/// What the words so far say.
#[verifier::ext_equal]
pub struct Said {
    pub mount: Option<Seq<char>>,
    pub cloud: Option<Seq<char>>,
    pub socket: Option<Seq<char>>,
    pub debounce: nat,
}

/// What a command line says from a word on; nothing where it is not one. A flag
/// takes the word behind it; the last of two equal flags counts, and one with
/// nothing behind it takes back what an earlier one said.
pub open spec fn said(words: Seq<Seq<char>>, i: nat, so_far: Said) -> Option<Said>
    decreases
        (if i < words.len() {
            words.len() - i
        } else {
            0
        }),
{
    if i >= words.len() {
        Some(so_far)
    } else {
        let a = words[i as int];
        let next = if i + 1 < words.len() {
            Some(words[(i + 1) as int])
        } else {
            None
        };
        if a == "--mount"@ {
            said(words, i + 2, Said { mount: next, ..so_far })
        } else if a == "--cloud"@ {
            said(words, i + 2, Said { cloud: next, ..so_far })
        } else if a == "--socket"@ {
            said(words, i + 2, Said { socket: next, ..so_far })
        } else if a == "--debounce-secs"@ {
            match next {
                None => None,
                Some(v) => match number::parsed(v, u64::MAX as nat) {
                    None => None,
                    Some(n) => said(words, i + 2, Said { debounce: n * SECOND as nat, ..so_far }),
                },
            }
        } else {
            None
        }
    }
}

/// A file in the directory for what lives as long as a login.
pub open spec fn runtime_file(runtime: Option<Seq<char>>, name: Seq<char>) -> Seq<char> {
    paths::joined(
        match runtime {
            Some(dir) => dir,
            None => "/tmp"@,
        },
        name,
    )
}

/// What the daemon's command line comes to, given the home directory and the
/// one for sockets. Nothing where it is not one, or names no mount.
pub open spec fn parsed(
    words: Seq<Seq<char>>,
    home: Option<Seq<char>>,
    runtime: Option<Seq<char>>,
) -> Option<ArgsModel> {
    match said(
        words,
        0,
        Said { mount: None, cloud: None, socket: None, debounce: QUIET_PERIOD as nat },
    ) {
        None => None,
        Some(s) => match s.mount {
            None => None,
            Some(mount) => Some(
                ArgsModel {
                    mount,
                    cloud: match s.cloud {
                        Some(cloud) => cloud,
                        None => paths::joined(
                            match home {
                                Some(dir) => dir,
                                None => Seq::empty(),
                            },
                            ".local/share/hydration/cloud"@,
                        ),
                    },
                    socket: match s.socket {
                        Some(socket) => socket,
                        None => runtime_file(runtime, "hydration-sync.sock"@),
                    },
                    debounce: s.debounce as u128,
                },
            ),
        },
    }
}

fn in_runtime(runtime: &Option<String>, name: &str) -> (s: String)
    ensures
        s@ == runtime_file(text::maybe(*runtime), name@),
{
    match runtime {
        Some(dir) => paths::join(dir.as_str(), name),
        None => paths::join("/tmp", name),
    }
}

/// Where the daemon listens unless it is told otherwise: in a directory that is
/// the user's own and goes at logout.
pub fn default_socket(runtime: &Option<String>) -> (s: String)
    ensures
        s@ == runtime_file(text::maybe(*runtime), "hydration-sync.sock"@),
{
    in_runtime(runtime, "hydration-sync.sock")
}

/// Where requests go unless the program is told otherwise.
pub fn default_control(runtime: &Option<String>) -> (s: String)
    ensures
        s@ == runtime_file(text::maybe(*runtime), "hydration-sync.ctl"@),
{
    in_runtime(runtime, "hydration-sync.ctl")
}

/// Read the daemon's command line; `None` where usage is to be shown.
pub fn parse(words: &Vec<String>, home: &Option<String>, runtime: &Option<String>) -> (r: Option<
    Args,
>)
    ensures
        parsed(text::texts(words@), text::maybe(*home), text::maybe(*runtime)) == match r {
            Some(a) => Some(a@),
            None => None,
        },
{
    let ghost all = text::texts(words@);
    let total = words.len();
    let mut mount: Option<String> = None;
    let mut cloud: Option<String> = None;
    let mut socket: Option<String> = None;
    let mut debounce: u128 = QUIET_PERIOD;
    let mut i: usize = 0;
    let ghost start = Said { mount: None, cloud: None, socket: None, debounce: QUIET_PERIOD as nat };
    while i < total
        invariant
            total == words@.len(),
            all == text::texts(words@),
            debounce <= u64::MAX * SECOND,
            said(all, 0, start) == said(
                all,
                i as nat,
                Said {
                    mount: text::maybe(mount),
                    cloud: text::maybe(cloud),
                    socket: text::maybe(socket),
                    debounce: debounce as nat,
                },
            ),
            start == (Said {
                mount: None,
                cloud: None,
                socket: None,
                debounce: QUIET_PERIOD as nat,
            }),
        decreases (if i < total {
            total - i
        } else {
            0
        }),
    {
        let a = words[i].as_str();
        assert(all[i as int] == a@);
        let next: Option<String> = if total - i > 1 {
            assert(all[i + 1] == words@[i + 1]@);
            Some(words[i + 1].as_str().to_owned())
        } else {
            None
        };
        if text::same(a, "--mount") {
            mount = next;
        } else if text::same(a, "--cloud") {
            cloud = next;
        } else if text::same(a, "--socket") {
            socket = next;
        } else if text::same(a, "--debounce-secs") {
            match next {
                None => {
                    return None;
                },
                Some(v) => match number::parse(v.as_str(), 0xffff_ffff_ffff_ffff) {
                    None => {
                        return None;
                    },
                    Some(n) => {
                        debounce = n as u128 * SECOND;
                    },
                },
            }
        } else {
            return None;
        }
        if total - i > 1 {
            i = i + 2;
        } else {
            proof {
                assert(said(
                    all,
                    i as nat + 2,
                    Said {
                        mount: text::maybe(mount),
                        cloud: text::maybe(cloud),
                        socket: text::maybe(socket),
                        debounce: debounce as nat,
                    },
                ) == said(
                    all,
                    total as nat,
                    Said {
                        mount: text::maybe(mount),
                        cloud: text::maybe(cloud),
                        socket: text::maybe(socket),
                        debounce: debounce as nat,
                    },
                ));
            }
            i = total;
        }
    }
    let mount = match mount {
        Some(mount) => mount,
        None => {
            return None;
        },
    };
    let cloud = match cloud {
        Some(cloud) => cloud,
        None => match home {
            Some(dir) => paths::join(dir.as_str(), ".local/share/hydration/cloud"),
            None => {
                let none = String::new();
                assert(none@ =~= Seq::empty());
                paths::join(none.as_str(), ".local/share/hydration/cloud")
            },
        },
    };
    let socket = match socket {
        Some(socket) => socket,
        None => default_socket(runtime),
    };
    Some(Args { mount, cloud, socket, debounce })
}

/// How long the path of a socket may be, in bytes.
pub const MAX_SOCKET: usize = 100;

/// Why a socket's path is not used, if it is too long.
pub fn socket_refusal(socket: &str) -> (r: Option<String>)
    ensures
        match r {
            None => text::bytes(socket@).len() <= MAX_SOCKET,
            Some(why) => text::bytes(socket@).len() > MAX_SOCKET && why@ == "socket path is "@
                + number::digits(text::bytes(socket@).len())
                + " bytes; the kernel limit is about 108. Pass a shorter --socket."@,
        },
{
    let n = socket.as_bytes().len();
    if n <= MAX_SOCKET {
        return None;
    }
    let mut why: String = "socket path is ".to_owned();
    why.append(number::decimal(n as u64).as_str());
    why.append(" bytes; the kernel limit is about 108. Pass a shorter --socket.");
    Some(why)
}

/// What the control program's command line says from a word on: a socket, and
/// the words of the request. Nothing where usage is to be shown.
pub open spec fn asked(
    words: Seq<Seq<char>>,
    i: nat,
    socket: Seq<char>,
    request: Seq<Seq<char>>,
) -> Option<(Seq<char>, Seq<Seq<char>>)>
    decreases
        (if i < words.len() {
            words.len() - i
        } else {
            0
        }),
{
    if i >= words.len() {
        if request.len() == 0 {
            None
        } else {
            Some((socket, request))
        }
    } else {
        let a = words[i as int];
        if a == "--socket"@ {
            if i + 1 < words.len() {
                asked(words, i + 2, words[(i + 1) as int], request)
            } else {
                None
            }
        } else if a == "-h"@ || a == "--help"@ {
            None
        } else {
            asked(words, i + 1, socket, request.push(a))
        }
    }
}

/// Read the control program's command line: the socket to ask, and the line to
/// ask with. `None` where usage is to be shown.
pub fn parse_control(words: &Vec<String>, runtime: &Option<String>) -> (r: Option<
    (String, String),
>)
    ensures
        match r {
            Some((socket, line)) => asked(
                text::texts(words@),
                0,
                runtime_file(text::maybe(*runtime), "hydration-sync.ctl"@),
                Seq::empty(),
            ) matches Some((s, request)) && s == socket@ && line@ == text::join(request, " "@),
            None => asked(
                text::texts(words@),
                0,
                runtime_file(text::maybe(*runtime), "hydration-sync.ctl"@),
                Seq::empty(),
            ) is None,
        },
{
    let ghost all = text::texts(words@);
    let total = words.len();
    let mut socket = default_control(runtime);
    let ghost first = socket@;
    let mut request: Vec<String> = Vec::new();
    let mut i: usize = 0;
    assert(text::texts(request@) =~= Seq::empty());
    while i < total
        invariant
            i <= total,
            total == words@.len(),
            all == text::texts(words@),
            asked(all, 0, first, Seq::empty()) == asked(
                all,
                i as nat,
                socket@,
                text::texts(request@),
            ),
            first == runtime_file(text::maybe(*runtime), "hydration-sync.ctl"@),
        decreases total - i,
    {
        let a = words[i].as_str();
        assert(all[i as int] == a@);
        if text::same(a, "--socket") {
            if total - i > 1 {
                assert(all[i + 1] == words@[i + 1]@);
                socket = words[i + 1].as_str().to_owned();
                i = i + 2;
            } else {
                return None;
            }
        } else if text::same(a, "-h") || text::same(a, "--help") {
            return None;
        } else {
            let ghost had = text::texts(request@);
            request.push(a.to_owned());
            assert(text::texts(request@) =~= had.push(a@));
            i = i + 1;
        }
    }
    assert(text::texts(request@).len() == request@.len());
    if request.len() == 0 {
        return None;
    }
    Some((socket, text::join_with(&request, " ")))
}

/// Options are read pair by pair, in their order: what follows a run of whole pairs
/// is read as if it stood alone, with what those said.
pub proof fn law_options_are_read_in_turn(
    first: Seq<Seq<char>>,
    second: Seq<Seq<char>>,
    i: nat,
    so_far: Said,
)
    requires
        first.len() % 2 == 0,
        i % 2 == 0,
        i <= first.len(),
    ensures
        said(first + second, i, so_far) == match said(first, i, so_far) {
            Some(s) => said(second, 0, s),
            None => None,
        },
    decreases first.len() - i,
{
    let all = first + second;
    if i >= first.len() {
        lemma_said_shift(first, second, 0, so_far);
    } else {
        assert(all[i as int] == first[i as int]);
        assert(i + 1 < first.len());
        assert(all[i as int + 1] == first[i as int + 1]);
        let a = first[i as int];
        let v = first[i as int + 1];
        law_options_are_read_in_turn(first, second, i + 2, Said { mount: Some(v), ..so_far });
        law_options_are_read_in_turn(first, second, i + 2, Said { cloud: Some(v), ..so_far });
        law_options_are_read_in_turn(first, second, i + 2, Said { socket: Some(v), ..so_far });
        if let Some(n) = number::parsed(v, u64::MAX as nat) {
            law_options_are_read_in_turn(
                first,
                second,
                i + 2,
                Said { debounce: n * SECOND as nat, ..so_far },
            );
        }
    }
}

proof fn lemma_said_shift(
    pre: Seq<Seq<char>>,
    words: Seq<Seq<char>>,
    i: nat,
    so_far: Said,
)
    ensures
        said(pre + words, pre.len() + i, so_far) == said(words, i, so_far),
    decreases
        (if i < words.len() {
            words.len() - i
        } else {
            0
        }),
{
    let all = pre + words;
    let at = pre.len() + i;
    if i < words.len() {
        assert(all[at as int] == words[i as int]);
        let next = if i + 1 < words.len() {
            Some(words[(i + 1) as int])
        } else {
            None
        };
        if i + 1 < words.len() {
            assert(all[at as int + 1] == words[i as int + 1]);
        }
        lemma_said_shift(pre, words, i + 2, Said { mount: next, ..so_far });
        lemma_said_shift(pre, words, i + 2, Said { cloud: next, ..so_far });
        lemma_said_shift(pre, words, i + 2, Said { socket: next, ..so_far });
        if let Some(v) = next {
            if let Some(n) = number::parsed(v, u64::MAX as nat) {
                lemma_said_shift(
                    pre,
                    words,
                    i + 2,
                    Said { debounce: n * SECOND as nat, ..so_far },
                );
            }
        }
    }
}

/// Each option sets what it names to the word behind it and nothing else; the quiet
/// period is a number of seconds. A word that is no option, and a period that is no
/// number, refuse the whole.
pub proof fn law_an_option_sets_what_it_names(flag: Seq<char>, v: Seq<char>, s: Said)
    ensures
        said(Seq::empty(), 0, s) == Some(s),
        flag == "--mount"@ ==> said(seq![flag, v], 0, s) == Some(Said { mount: Some(v), ..s }),
        flag == "--cloud"@ ==> said(seq![flag, v], 0, s) == Some(Said { cloud: Some(v), ..s }),
        flag == "--socket"@ ==> said(seq![flag, v], 0, s) == Some(Said { socket: Some(v), ..s }),
        flag == "--debounce-secs"@ ==> said(seq![flag, v], 0, s) == match number::parsed(
            v,
            u64::MAX as nat,
        ) {
            Some(n) => Some(Said { debounce: n * 1_000_000_000, ..s }),
            None => None,
        },
        flag != "--mount"@ && flag != "--cloud"@ && flag != "--socket"@ && flag
            != "--debounce-secs"@ ==> said(seq![flag, v], 0, s) is None && said(seq![flag], 0, s)
            is None,
{
    reveal_strlit("--mount");
    reveal_strlit("--cloud");
    reveal_strlit("--socket");
    reveal_strlit("--debounce-secs");
    let two = seq![flag, v];
    assert(two[0] == flag && two[1] == v);
    assert("--mount"@[2] == 'm' && "--cloud"@[2] == 'c' && "--socket"@[2] == 's'
        && "--debounce-secs"@[2] == 'd');
    reveal_with_fuel(said, 2);
}

/// Without a mount nothing is parsed. With one, what was not said is the default:
/// the cloud below the home directory, the socket in the runtime directory or the
/// directory for temporary files, and ten seconds.
pub proof fn law_a_mount_is_all_that_is_needed(
    words: Seq<Seq<char>>,
    home: Option<Seq<char>>,
    runtime: Option<Seq<char>>,
    s: Said,
)
    requires
        said(
            words,
            0,
            Said { mount: None, cloud: None, socket: None, debounce: 10_000_000_000 },
        ) == Some(s),
    ensures
        s.mount is None ==> parsed(words, home, runtime) is None,
        s.mount matches Some(mount) ==> parsed(words, home, runtime) matches Some(a) && {
            &&& a.mount == mount
            &&& s.cloud matches Some(cloud) ==> a.cloud == cloud
            &&& s.socket matches Some(socket) ==> a.socket == socket
            &&& s.cloud is None && home is Some ==> a.cloud == paths::joined(
                home->0,
                ".local/share/hydration/cloud"@,
            )
            &&& s.socket is None && runtime is Some ==> a.socket == paths::joined(
                runtime->0,
                "hydration-sync.sock"@,
            )
            &&& s.socket is None && runtime is None ==> a.socket == paths::joined(
                "/tmp"@,
                "hydration-sync.sock"@,
            )
            &&& s.debounce <= u128::MAX ==> a.debounce == s.debounce
        },
{
}

/// A request is the words that are no option, in their order, and goes to the socket
/// that was named last. Asking for help, naming no socket behind the option, and
/// saying nothing are refused.
pub proof fn law_a_request_is_its_words(
    words: Seq<Seq<char>>,
    socket: Seq<char>,
    request: Seq<Seq<char>>,
    w: Seq<char>,
)
    ensures
        asked(Seq::empty(), 0, socket, request) == (if request.len() == 0 {
            None
        } else {
            Some((socket, request))
        }),
        w == "-h"@ || w == "--help"@ ==> asked(seq![w] + words, 0, socket, request) is None,
        asked(seq!["--socket"@], 0, socket, request) is None,
        asked(seq!["--socket"@, w] + words, 0, socket, request) == asked(words, 0, w, request),
        w != "-h"@ && w != "--help"@ && w != "--socket"@ ==> asked(
            seq![w] + words,
            0,
            socket,
            request,
        ) == asked(words, 0, socket, request.push(w)),
{
    reveal_strlit("--socket");
    reveal_strlit("-h");
    reveal_strlit("--help");
    assert("--socket"@[2] == 's' && "--help"@[2] == 'h' && "-h"@.len() == 2);
    let one = seq![w] + words;
    let two = seq!["--socket"@, w] + words;
    assert(one[0] == w);
    assert(two[0] == "--socket"@ && two[1] == w);
    lemma_asked_shift(seq![w], words, 0, socket, request.push(w));
    lemma_asked_shift(seq!["--socket"@, w], words, 0, w, request);
}

proof fn lemma_asked_shift(
    pre: Seq<Seq<char>>,
    words: Seq<Seq<char>>,
    i: nat,
    socket: Seq<char>,
    request: Seq<Seq<char>>,
)
    ensures
        asked(pre + words, pre.len() + i, socket, request) == asked(words, i, socket, request),
    decreases
        (if i < words.len() {
            words.len() - i
        } else {
            0
        }),
{
    let all = pre + words;
    let at = pre.len() + i;
    if i < words.len() {
        assert(all[at as int] == words[i as int]);
        if i + 1 < words.len() {
            assert(all[at as int + 1] == words[i as int + 1]);
            lemma_asked_shift(pre, words, i + 2, words[(i + 1) as int], request);
        }
        lemma_asked_shift(pre, words, i + 1, socket, request.push(words[i as int]));
    }
}

} // verus!

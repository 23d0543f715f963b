//! Which command a command line gives.
use crate::text::{parse_u64, parsed_u64, same_text};
use vstd::prelude::*;

verus! {

/// A command.
#[derive(Debug)]
pub enum Command {
    /// Imports a database of the first storage generation.
    Migrate { source: String, destination: String },
    /// Turns marked forks into branches.
    MigrateBranches { source: String, destination: String },
    /// Shows a session and its fork.
    Session,
    /// Writes many events and reads them back.
    Storm { count: Option<String> },
    /// Runs the crash harness.
    CrashTest { arguments: Vec<String> },
    /// Serves the playground.
    Playground { directory: String, port: u16 },
}

/// A command as plain values.
#[verifier::ext_equal]
pub enum CommandView {
    Migrate { source: Seq<char>, destination: Seq<char> },
    MigrateBranches { source: Seq<char>, destination: Seq<char> },
    Session,
    Storm { count: Option<Seq<char>> },
    CrashTest { arguments: Seq<Seq<char>> },
    Playground { directory: Seq<char>, port: u16 },
}

/// Arguments as plain values.
pub open spec fn argument_views(arguments: Seq<String>) -> Seq<Seq<char>> {
    Seq::new(arguments.len(), |i: int| arguments[i]@)
}

impl View for Command {
    type V = CommandView;

    open spec fn view(&self) -> CommandView {
        match *self {
            Command::Migrate { source, destination } => CommandView::Migrate { source: source@, destination: destination@ },
            Command::MigrateBranches { source, destination } => CommandView::MigrateBranches {
                source: source@,
                destination: destination@,
            },
            Command::Session => CommandView::Session,
            Command::Storm { count } => CommandView::Storm {
                count: match count {
                    Some(count) => Some(count@),
                    None => None,
                },
            },
            Command::CrashTest { arguments } => CommandView::CrashTest { arguments: argument_views(arguments@) },
            Command::Playground { directory, port } => CommandView::Playground { directory: directory@, port },
        }
    }
}

/// The port that the playground listens on unless it is told.
pub const DEFAULT_PORT: u16 = 7171;

/// The directory that the playground keeps its data in unless it is told.
pub const DEFAULT_DIRECTORY: &'static str = "./salamander-playground";

/// The port that a text gives.
pub open spec fn port_of(text: Seq<char>) -> Option<u16> {
    match parsed_u64(text) {
        Some(n) => if n <= 0xffff {
            Some(n as u16)
        } else {
            None
        },
        None => None,
    }
}

/// What the playground's arguments from one on give, after a directory and a
/// port; nothing, where a port is asked for and none is given.
pub open spec fn playground(arguments: Seq<Seq<char>>, i: int, directory: Seq<char>, port: u16) -> Option<(Seq<char>, u16)>
    decreases arguments.len() - i,
{
    if i < 0 || i >= arguments.len() {
        Some((directory, port))
    } else if arguments[i] == "--port"@ {
        if i + 1 >= arguments.len() {
            None
        } else {
            match port_of(arguments[i + 1]) {
                Some(port) => playground(arguments, i + 2, directory, port),
                None => None,
            }
        }
    } else {
        playground(arguments, i + 1, arguments[i], port)
    }
}

/// The command that arguments give, if they give one.
pub open spec fn command_of(arguments: Seq<Seq<char>>) -> Option<CommandView> {
    if arguments.len() == 0 {
        None
    } else if arguments[0] == "migrate"@ && arguments.len() == 3 {
        Some(CommandView::Migrate { source: arguments[1], destination: arguments[2] })
    } else if arguments[0] == "migrate-branches"@ && arguments.len() == 3 {
        Some(CommandView::MigrateBranches { source: arguments[1], destination: arguments[2] })
    } else if arguments[0] == "session"@ {
        Some(CommandView::Session)
    } else if arguments[0] == "storm"@ {
        Some(
            CommandView::Storm {
                count: if arguments.len() > 1 {
                    Some(arguments[1])
                } else {
                    None
                },
            },
        )
    } else if arguments[0] == "crashtest"@ {
        Some(CommandView::CrashTest { arguments: arguments.skip(1) })
    } else if arguments[0] == "ui"@ {
        match playground(arguments, 1, DEFAULT_DIRECTORY@, DEFAULT_PORT) {
            Some((directory, port)) => Some(CommandView::Playground { directory, port }),
            None => None,
        }
    } else {
        None
    }
}

fn read_playground(arguments: &Vec<String>) -> (r: Option<(String, u16)>)
    requires
        arguments@.len() > 0,
    ensures
        match playground(argument_views(arguments@), 1, DEFAULT_DIRECTORY@, DEFAULT_PORT) {
            Some((directory, port)) => r matches Some((d, p)) && d@ == directory && p == port,
            None => r is None,
        },
{
    let ghost views = argument_views(arguments@);
    let ghost goal = playground(views, 1, DEFAULT_DIRECTORY@, DEFAULT_PORT);
    let mut directory = DEFAULT_DIRECTORY.to_owned();
    let mut port: u16 = DEFAULT_PORT;
    let mut i: usize = 1;
    while i < arguments.len()
        invariant
            1 <= i <= arguments@.len(),
            views == argument_views(arguments@),
            goal == playground(views, 1, DEFAULT_DIRECTORY@, DEFAULT_PORT),
            goal == playground(views, i as int, directory@, port),
        decreases arguments@.len() - i,
    {
        assert(views[i as int] == arguments@[i as int]@);
        if same_text(arguments[i].as_str(), "--port") {
            if i + 1 >= arguments.len() {
                return None;
            }
            assert(views[i + 1] == arguments@[i + 1]@);
            match parse_u64(arguments[i + 1].as_str()) {
                Some(n) => {
                    if n > 0xffff {
                        return None;
                    }
                    port = n as u16;
                },
                None => return None,
            }
            i = i + 2;
        } else {
            directory = arguments[i].clone();
            i = i + 1;
        }
    }
    Some((directory, port))
}

fn rest_of(arguments: &Vec<String>) -> (out: Vec<String>)
    requires
        arguments@.len() > 0,
    ensures
        argument_views(out@) == argument_views(arguments@).skip(1),
{
    let mut out: Vec<String> = Vec::new();
    let mut i: usize = 1;
    while i < arguments.len()
        invariant
            1 <= i <= arguments@.len(),
            out@.len() == i - 1,
            forall|j: int| 0 <= j < out@.len() ==> (#[trigger] out@[j])@ == arguments@[j + 1]@,
        decreases arguments@.len() - i,
    {
        out.push(arguments[i].clone());
        i = i + 1;
    }
    assert(argument_views(out@) =~= argument_views(arguments@).skip(1));
    out
}

impl Command {
    /// The command that arguments give, if they give one.
    pub fn parse(arguments: &Vec<String>) -> (r: Option<Self>)
        ensures
            match command_of(argument_views(arguments@)) {
                Some(command) => r matches Some(c) && c@ == command,
                None => r is None,
            },
    {
        if arguments.len() == 0 {
            return None;
        }
        let ghost views = argument_views(arguments@);
        assert(forall|i: int| 0 <= i < views.len() ==> views[i] == (#[trigger] arguments@[i])@);
        let name = arguments[0].as_str();
        if same_text(name, "migrate") && arguments.len() == 3 {
            Some(Command::Migrate { source: arguments[1].clone(), destination: arguments[2].clone() })
        } else if same_text(name, "migrate-branches") && arguments.len() == 3 {
            Some(Command::MigrateBranches { source: arguments[1].clone(), destination: arguments[2].clone() })
        } else if same_text(name, "session") {
            Some(Command::Session)
        } else if same_text(name, "storm") {
            let count = if arguments.len() > 1 {
                Some(arguments[1].clone())
            } else {
                None
            };
            Some(Command::Storm { count })
        } else if same_text(name, "crashtest") {
            Some(Command::CrashTest { arguments: rest_of(arguments) })
        } else if same_text(name, "ui") {
            match read_playground(arguments) {
                Some((directory, port)) => Some(Command::Playground { directory, port }),
                None => None,
            }
        } else {
            None
        }
    }
}

} // verus!

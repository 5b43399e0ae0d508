//! The commands of the front-end, as the library sees them once the
//! command line is parsed.

use vstd::prelude::*;
use crate::messages::{ClientMessage, ConnectMessage, ShareMessage};
use crate::shares::{CommonShareName, ShareName};

verus! {

#[derive(Clone, Debug)]
pub enum Command {
    Connect { command: ConnectCommand },
    Discover,
    Kill,
    Ls,
    Share { command: ShareCommand },
}

#[derive(Clone, Debug)]
pub enum ConnectCommand {
    Ls,
    Mount { name: ShareName, path: String },
    Unmount { name: ShareName },
}

#[derive(Clone, Debug)]
pub enum ShareCommand {
    Ls,
    Remove { name: CommonShareName },
    Share { path: String, name: Option<CommonShareName> },
}

/// Commands that need a running daemon, so that the front-end starts one:
/// every command that changes state or discovers, but not the listings and
/// not `kill`.
pub open spec fn needs_daemon(c: Command) -> bool {
    match c {
        Command::Connect { command } => !(command is Ls),
        Command::Discover => true,
        Command::Share { command } => !(command is Ls),
        Command::Kill | Command::Ls => false,
    }
}

impl Command {
    /// Whether the front-end must start a daemon when none is running.
    pub fn should_server_start(&self) -> (r: bool)
        ensures
            r == needs_daemon(*self),
    {
        match self {
            Command::Connect { command } => match command {
                ConnectCommand::Ls => false,
                ConnectCommand::Mount { .. } | ConnectCommand::Unmount { .. } => true,
            },
            Command::Discover => true,
            Command::Share { command } => match command {
                ShareCommand::Remove { .. } | ShareCommand::Share { .. } => true,
                ShareCommand::Ls => false,
            },
            Command::Kill | Command::Ls => false,
        }
    }

    /// The request that carries this command to the daemon.
    pub fn to_message(self) -> (r: ClientMessage)
        ensures
            match self {
                Command::Connect { command: ConnectCommand::Ls } => r matches ClientMessage::Connect(ConnectMessage::Ls),
                Command::Connect { command: ConnectCommand::Mount { name, path } } =>
                    r == ClientMessage::Connect(ConnectMessage::Mount { path, name }),
                Command::Connect { command: ConnectCommand::Unmount { name } } =>
                    r == ClientMessage::Connect(ConnectMessage::Unmount { name }),
                Command::Discover => r matches ClientMessage::Discover,
                Command::Kill => r matches ClientMessage::Kill,
                Command::Ls => r matches ClientMessage::Ls,
                Command::Share { command: ShareCommand::Ls } => r matches ClientMessage::Share(ShareMessage::Ls),
                Command::Share { command: ShareCommand::Remove { name } } =>
                    r == ClientMessage::Share(ShareMessage::Remove { name }),
                Command::Share { command: ShareCommand::Share { path, name } } =>
                    r == ClientMessage::Share(ShareMessage::Share { path, name }),
            },
    {
        match self {
            Command::Connect { command } => ClientMessage::Connect(match command {
                ConnectCommand::Ls => ConnectMessage::Ls,
                ConnectCommand::Mount { name, path } => ConnectMessage::Mount { path, name },
                ConnectCommand::Unmount { name } => ConnectMessage::Unmount { name },
            }),
            Command::Discover => ClientMessage::Discover,
            Command::Kill => ClientMessage::Kill,
            Command::Ls => ClientMessage::Ls,
            Command::Share { command } => ClientMessage::Share(match command {
                ShareCommand::Ls => ShareMessage::Ls,
                ShareCommand::Remove { name } => ShareMessage::Remove { name },
                ShareCommand::Share { path, name } => ShareMessage::Share { path, name },
            }),
        }
    }
}

} // verus!

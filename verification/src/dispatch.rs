//! Validating and routing an inbound viewer command: a registry mutation,
//! a device action, or a rejection — the caller performs the chosen effect
//! and, on success, triggers the refresh-and-broadcast path.
use vstd::prelude::*;
use crate::protocol::gcode_for;
use crate::protocol::build_gcode;
use crate::text::str_eq;

verus! {

/// An inbound viewer command, as its JSON payload carries it; optional
/// fields are absent when the payload omits them.
pub struct Command {
    pub action: String,
    pub name: Option<String>,
    pub ip_address: Option<String>,
    pub file: Option<String>,
}

pub ghost struct CommandModel {
    pub action: Seq<char>,
    pub name: Option<Seq<char>>,
    pub ip_address: Option<Seq<char>>,
    pub file: Option<Seq<char>>,
}

pub open spec fn opt_view(o: Option<String>) -> Option<Seq<char>> {
    match o {
        Some(s) => Some(s@),
        None => None,
    }
}

impl View for Command {
    type V = CommandModel;

    open spec fn view(&self) -> CommandModel {
        CommandModel {
            action: self.action@,
            name: opt_view(self.name),
            ip_address: opt_view(self.ip_address),
            file: opt_view(self.file),
        }
    }
}

/// What a command routes to.
pub enum Dispatch {
    /// Register `name` at `ip` in the device registry, then refresh.
    AddPrinter { name: String, ip: String },
    /// Remove `name` from the device registry, then refresh.
    RemovePrinter { name: String },
    /// Send `gcode` to the device at `ip`, then refresh on success.
    DeviceCommand { ip: String, gcode: String },
    /// A required field of the action is missing: log, no effect.
    MissingField,
    /// The action is not recognized: log, no effect.
    Unsupported,
}

/// The actions forwarded to a device.
pub open spec fn is_device_action(a: Seq<char>) -> bool {
    a == "resume"@ || a == "pause"@ || a == "stop"@ || a == "start"@
}

/// The file a `start` action prints, the empty text when absent.
pub open spec fn file_or_empty(f: Option<Seq<char>>) -> Seq<char> {
    match f {
        Some(s) => s,
        None => Seq::empty(),
    }
}

/// Routes one decoded command: `add` and `remove` mutate the registry and
/// need their fields, the device actions need an address (`start` also a
/// file), and anything else is unsupported. A missing field rejects the
/// command without effect.
pub fn dispatch_command(cmd: &Command) -> (d: Dispatch)
    ensures
        cmd@.action == "add"@ ==> match d {
            Dispatch::AddPrinter { name, ip } => cmd@.name == Some(name@) && cmd@.ip_address
                == Some(ip@),
            Dispatch::MissingField => cmd@.name is None || cmd@.ip_address is None,
            _ => false,
        },
        cmd@.action == "remove"@ ==> match d {
            Dispatch::RemovePrinter { name } => cmd@.name == Some(name@),
            Dispatch::MissingField => cmd@.name is None,
            _ => false,
        },
        is_device_action(cmd@.action) ==> match d {
            Dispatch::DeviceCommand { ip, gcode } => cmd@.ip_address == Some(ip@) && (cmd@.action
                == "start"@ ==> cmd@.file is Some) && Some(gcode@) == gcode_for(
                cmd@.action,
                file_or_empty(cmd@.file),
            ),
            Dispatch::MissingField => cmd@.ip_address is None || (cmd@.action == "start"@
                && cmd@.file is None),
            _ => false,
        },
        cmd@.action != "add"@ && cmd@.action != "remove"@ && !is_device_action(cmd@.action)
            ==> d is Unsupported,
{
    proof {
        reveal_strlit("add");
        reveal_strlit("remove");
        reveal_strlit("resume");
        reveal_strlit("pause");
        reveal_strlit("stop");
        reveal_strlit("start");
        assert("add"@.len() == 3 && "remove"@.len() == 6 && "resume"@.len() == 6 && "pause"@.len()
            == 5 && "stop"@.len() == 4 && "start"@.len() == 5);
        assert("remove"@[2] == 'm' && "resume"@[2] == 's');
        assert(!is_device_action("add"@));
        assert(!is_device_action("remove"@));
    }
    let a = cmd.action.as_str();
    if str_eq(a, "add") {
        match (&cmd.name, &cmd.ip_address) {
            (Some(name), Some(ip)) => Dispatch::AddPrinter { name: name.clone(), ip: ip.clone() },
            _ => Dispatch::MissingField,
        }
    } else if str_eq(a, "remove") {
        match &cmd.name {
            Some(name) => Dispatch::RemovePrinter { name: name.clone() },
            None => Dispatch::MissingField,
        }
    } else if str_eq(a, "resume") || str_eq(a, "pause") || str_eq(a, "stop") || str_eq(
        a,
        "start",
    ) {
        let ip = match &cmd.ip_address {
            Some(ip) => ip.clone(),
            None => {
                return Dispatch::MissingField;
            },
        };
        if str_eq(a, "start") && cmd.file.is_none() {
            return Dispatch::MissingField;
        }
        let file = match &cmd.file {
            Some(f) => f.clone(),
            None => String::new(),
        };
        match build_gcode(a, file.as_str()) {
            Some(gcode) => Dispatch::DeviceCommand { ip, gcode },
            None => Dispatch::MissingField,
        }
    } else {
        Dispatch::Unsupported
    }
}

} // verus!

//! The decision core of the datagram exchange with a device: line framing,
//! the sentinel that terminates a reply, interpreting a status reply, and
//! building the command text for a device action.
use vstd::prelude::*;
use crate::state::{PrinterState, state_of, StateModel};
use crate::text::push_char;

verus! {

/// A response line that terminates the reply: it begins with `ok`.
pub open spec fn is_sentinel_line(s: Seq<char>) -> bool {
    s.len() >= 2 && s[0] == 'o' && s[1] == 'k'
}

/// One received datagram as a response line: a single trailing CRLF is
/// stripped.
pub open spec fn stripped_line(s: Seq<char>) -> Seq<char> {
    if s.len() >= 2 && s[s.len() - 2] == '\r' && s[s.len() - 1] == '\n' {
        s.subrange(0, s.len() - 2)
    } else {
        s
    }
}

/// Strips the trailing CRLF of one datagram, if present.
pub fn strip_crlf(s: &str) -> (r: String)
    ensures
        r@ == stripped_line(s@),
{
    let n = s.unicode_len();
    if n >= 2 && s.get_char(n - 2) == '\r' && s.get_char(n - 1) == '\n' {
        let cut = s.substring_char(0, n - 2);
        cut.to_owned()
    } else {
        s.to_owned()
    }
}

/// Whether a response line begins with the sentinel prefix `ok`.
pub fn is_sentinel(s: &str) -> (r: bool)
    ensures
        r == is_sentinel_line(s@),
{
    let n = s.unicode_len();
    n >= 2 && s.get_char(0) == 'o' && s.get_char(1) == 'k'
}

/// One step of collecting a reply: the received datagram is framed as a
/// line and appended, and collection stops exactly when that line is the
/// sentinel. The caller also stops on a receive timeout or error, returning
/// whatever was collected.
pub fn process_datagram(out: &mut Vec<String>, datagram: &str) -> (stop: bool)
    ensures
        final(out)@.len() == old(out)@.len() + 1,
        final(out)@.subrange(0, old(out)@.len() as int) == old(out)@,
        final(out)@.last()@ == stripped_line(datagram@),
        stop == is_sentinel_line(stripped_line(datagram@)),
{
    let line = strip_crlf(datagram);
    let stop = is_sentinel(line.as_str());
    out.push(line);
    proof {
        assert(final(out)@.subrange(0, old(out)@.len() as int) =~= old(out)@);
    }
    stop
}

/// Interprets a status reply: an empty reply means the device was not
/// reachable, otherwise the first line carries the whole status record.
pub fn status_from_response(lines: &Vec<String>) -> (r: Result<PrinterState, String>)
    ensures
        lines@.len() == 0 <==> r is Err,
        r is Err ==> r->Err_0@ == "Unable to connect"@,
        r is Ok ==> r->Ok_0@ == state_of(lines@[0]@),
{
    if lines.len() == 0 {
        let mut m = String::new();
        m.append("Unable to connect");
        return Err(m);
    }
    match PrinterState::from_str(lines[0].as_str()) {
        Ok(st) => Ok(st),
        Err(_) => {
            // unreachable: the status decoder is total
            let mut m = String::new();
            m.append("Unable to connect");
            Err(m)
        },
    }
}

/// The command text a device action stands for: `resume`, `pause` and
/// `stop` map to their fixed codes, `start` wraps the chosen file in
/// quotes; any other action has none.
pub open spec fn gcode_for(action: Seq<char>, file: Seq<char>) -> Option<Seq<char>> {
    if action == "resume"@ {
        Some("M24"@)
    } else if action == "pause"@ {
        Some("M25"@)
    } else if action == "stop"@ {
        Some("M33"@)
    } else if action == "start"@ {
        Some("M6030 \""@ + file + "\""@)
    } else {
        None
    }
}

/// Builds the command text for an action, with the file name the `start`
/// action prints.
pub fn build_gcode(action: &str, file: &str) -> (r: Option<String>)
    ensures
        r is Some <==> gcode_for(action@, file@) is Some,
        r is Some ==> r->0@ == gcode_for(action@, file@)->0,
{
    if crate::text::str_eq(action, "resume") {
        let mut m = String::new();
        m.append("M24");
        Some(m)
    } else if crate::text::str_eq(action, "pause") {
        let mut m = String::new();
        m.append("M25");
        Some(m)
    } else if crate::text::str_eq(action, "stop") {
        let mut m = String::new();
        m.append("M33");
        Some(m)
    } else if crate::text::str_eq(action, "start") {
        let mut m = String::new();
        m.append("M6030 \"");
        m.append(file);
        m.append("\"");
        Some(m)
    } else {
        None
    }
}

/// Interprets the reply to a device action: the first collected line
/// reports the device's answer, and an empty reply is the failure report
/// `Failed to <action> printer at <address>`.
pub fn action_result(action: &str, address: &str, output: &Vec<String>) -> (r: Result<
    String,
    String,
>)
    ensures
        output@.len() > 0 <==> r is Ok,
        r is Ok ==> r->Ok_0@ == output@[0]@,
        r is Err ==> r->Err_0@ == "Failed to "@ + action@ + " printer at "@ + address@,
{
    if output.len() > 0 {
        Ok(output[0].clone())
    } else {
        let mut m = String::new();
        m.append("Failed to ");
        m.append(action);
        m.append(" printer at ");
        m.append(address);
        Err(m)
    }
}

} // verus!

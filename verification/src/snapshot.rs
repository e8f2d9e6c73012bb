//! Building the aggregate snapshot: one view record per registered device,
//! assembled from whatever its poll returned, with one device's failure
//! never spoiling the rest.
use vstd::prelude::*;
use crate::files::{file_list_of, files_from_response};
use crate::num::{dec_str, digit_char, u128_to_string};
use crate::protocol::status_from_response;
use crate::state::state_of;
use crate::text::{push_char, views};

verus! {

/// The progress text of a device: the printed percentage of the file
/// position, to two decimal places (truncated), or `Not Printing` when no
/// file is loaded.
pub open spec fn progress_of(cur: u64, max: u64) -> Seq<char> {
    if max == 0 {
        "Not Printing"@
    } else {
        let v = (cur * 10000) / (max as int);
        dec_str(v / 100) + seq!['.'] + seq![digit_char((v / 10) % 10), digit_char(v % 10)]
    }
}

/// Renders the progress percentage of a file position.
pub fn progress_text(cur: u64, max: u64) -> (r: String)
    ensures
        r@ == progress_of(cur, max),
{
    if max == 0 {
        let mut m = String::new();
        m.append("Not Printing");
        return m;
    }
    let v: u128 = (cur as u128) * 10000 / (max as u128);
    let whole: u128 = v / 100;
    let frac: u8 = (v % 100) as u8;
    proof {
        assert(v == (cur * 10000) / (max as int));
        assert(whole == (v as int) / 100);
        assert(frac == (v as int) % 100);
        assert((frac as int) / 10 == ((v as int) / 10) % 10);
        assert((frac as int) % 10 == (v as int) % 10);
    }
    let mut r = u128_to_string(whole);
    push_char(&mut r, '.');
    push_char(&mut r, ((48 + frac / 10) as u8) as char);
    push_char(&mut r, ((48 + frac % 10) as u8) as char);
    proof {
        assert(r@ =~= progress_of(cur, max));
    }
    r
}

/// One device's entry of the aggregate snapshot.
pub struct PrinterStatus {
    pub printer_name: String,
    pub ip_address: String,
    pub files_available: Vec<String>,
    pub progress: String,
    pub paused: bool,
}

/// The mathematical model of a snapshot entry.
#[verifier::ext_equal]
pub ghost struct StatusModel {
    pub printer_name: Seq<char>,
    pub ip_address: Seq<char>,
    pub files_available: Seq<Seq<char>>,
    pub progress: Seq<char>,
    pub paused: bool,
}

impl View for PrinterStatus {
    type V = StatusModel;

    open spec fn view(&self) -> StatusModel {
        StatusModel {
            printer_name: self.printer_name@,
            ip_address: self.ip_address@,
            files_available: views(self.files_available@),
            progress: self.progress@,
            paused: self.paused,
        }
    }
}

/// What one device's poll outcome aggregates to. An empty status reply
/// (the device was unreachable) yields an entry with no files, not paused,
/// and the error text in place of the progress; otherwise the first status
/// line and the file-list reply fill the entry.
pub open spec fn snapshot_entry_of(
    name: Seq<char>,
    ip: Seq<char>,
    status_lines: Seq<Seq<char>>,
    file_lines: Seq<Seq<char>>,
) -> StatusModel {
    if status_lines.len() == 0 {
        StatusModel {
            printer_name: name,
            ip_address: ip,
            files_available: Seq::empty(),
            progress: "Unable to connect"@,
            paused: false,
        }
    } else {
        let st = state_of(status_lines[0]);
        StatusModel {
            printer_name: name,
            ip_address: ip,
            files_available: file_list_of(file_lines),
            progress: progress_of(st.d.current_file_position, st.d.max_file_position),
            paused: st.d.paused,
        }
    }
}

/// Builds one snapshot entry from a device's poll outcome.
pub fn status_record(
    name: String,
    ip: String,
    status_lines: &Vec<String>,
    file_lines: &Vec<String>,
) -> (r: PrinterStatus)
    ensures
        r@ == snapshot_entry_of(name@, ip@, views(status_lines@), views(file_lines@)),
{
    match status_from_response(status_lines) {
        Ok(st) => {
            proof {
                assert(views(status_lines@)[0] == status_lines@[0]@);
            }
            let progress = progress_text(st.d.current_file_position, st.d.max_file_position);
            PrinterStatus {
                printer_name: name,
                ip_address: ip,
                files_available: files_from_response(file_lines),
                progress,
                paused: st.d.paused,
            }
        },
        Err(msg) => {
            let r = PrinterStatus {
                printer_name: name,
                ip_address: ip,
                files_available: Vec::new(),
                progress: msg,
                paused: false,
            };
            proof {
                assert(r@.files_available =~= Seq::<Seq<char>>::empty());
            }
            r
        },
    }
}

/// What one registered device's poll brought back: its registry entry and
/// the raw lines the two protocol exchanges collected. An unreachable
/// device has an empty `status_lines`; a device whose file-list exchange
/// was skipped or failed has an empty `file_lines`.
pub struct DevicePoll {
    pub name: String,
    pub ip: String,
    pub status_lines: Vec<String>,
    pub file_lines: Vec<String>,
}

pub ghost struct PollModel {
    pub name: Seq<char>,
    pub ip: Seq<char>,
    pub status_lines: Seq<Seq<char>>,
    pub file_lines: Seq<Seq<char>>,
}

impl View for DevicePoll {
    type V = PollModel;

    open spec fn view(&self) -> PollModel {
        PollModel {
            name: self.name@,
            ip: self.ip@,
            status_lines: views(self.status_lines@),
            file_lines: views(self.file_lines@),
        }
    }
}

/// The snapshot a sequence of polls aggregates to, one entry per device,
/// in the order polled.
pub open spec fn snapshot_of(polls: Seq<PollModel>) -> Seq<StatusModel> {
    polls.map_values(
        |p: PollModel| snapshot_entry_of(p.name, p.ip, p.status_lines, p.file_lines),
    )
}

/// Builds the aggregate snapshot from the polls of every registered
/// device, in registry order: each entry is that device's own record, so a
/// failed device degrades only its own entry.
pub fn build_snapshot(polls: Vec<DevicePoll>) -> (r: Vec<PrinterStatus>)
    ensures
        r@.len() == polls@.len(),
        forall|i: int|
            0 <= i < r@.len() ==> #[trigger] r@[i]@ == snapshot_of(polls@.map_values(
                |p: DevicePoll| p@,
            ))[i],
{
    let ghost pviews = polls@.map_values(|p: DevicePoll| p@);
    let mut r: Vec<PrinterStatus> = Vec::new();
    let mut rest = polls;
    let mut i: usize = 0;
    let n = rest.len();
    while i < n
        invariant
            0 <= i <= n,
            n == rest@.len(),
            pviews == rest@.map_values(|p: DevicePoll| p@),
            r@.len() == i,
            forall|j: int|
                0 <= j < i ==> #[trigger] r@[j]@ == snapshot_of(pviews)[j],
        decreases n - i,
    {
        let p = &rest[i];
        let entry = status_record(p.name.clone(), p.ip.clone(), &p.status_lines, &p.file_lines);
        r.push(entry);
        proof {
            assert(pviews[i as int] == rest@[i as int]@);
            assert(snapshot_of(pviews)[i as int] == snapshot_entry_of(
                rest@[i as int]@.name,
                rest@[i as int]@.ip,
                rest@[i as int]@.status_lines,
                rest@[i as int]@.file_lines,
            ));
        }
        i += 1;
    }
    r
}

} // verus!

//! The host-side companions of the engine: the clipboard de-echo
//! coordinator (the small state machine that keeps an automatic write-back
//! from re-triggering the monitor), the bounded history of recent maskings,
//! and the payload shapes the host sends to its front end. The host performs
//! the clipboard reads and writes; every decision is made here.

use vstd::prelude::*;

verus! {

/// The largest clipboard text the monitor masks automatically; anything
/// bigger is left for the file pipeline.
pub const MAX_CLIP_LEN: usize = 2097152;

/// How many history entries are kept; the oldest is evicted first.
pub const HISTORY_CAP: usize = 50;

/// One remembered masking: what was read and what was written back.
pub struct MaskHistoryItem {
    pub id: String,
    pub timestamp: String,
    pub original: String,
    pub masked: String,
}

impl Clone for MaskHistoryItem {
    fn clone(&self) -> (r: Self)
        ensures
            r == *self,
    {
        MaskHistoryItem {
            id: self.id.clone(),
            timestamp: self.timestamp.clone(),
            original: self.original.clone(),
            masked: self.masked.clone(),
        }
    }
}

/// The bounded ring of recent maskings: newest first, capped at
/// [`HISTORY_CAP`] entries with first-in-first-out eviction.
pub struct MaskHistory {
    items: Vec<MaskHistoryItem>,
}

impl MaskHistory {
    /// The remembered items, newest first.
    pub closed spec fn view_items(self) -> Seq<MaskHistoryItem> {
        self.items@
    }

    /// The ring never exceeds its cap.
    pub closed spec fn wf(self) -> bool {
        self.items@.len() <= HISTORY_CAP
    }

    /// An empty history.
    pub fn new() -> (r: Self)
        ensures
            r.wf(),
            r.view_items().len() == 0,
    {
        MaskHistory { items: Vec::new() }
    }

    /// Remembers one masking: the item goes in front, earlier items shift
    /// back, and the oldest falls out once the cap is reached.
    pub fn add_history(&mut self, item: MaskHistoryItem)
        requires
            old(self).wf(),
        ensures
            final(self).wf(),
            final(self).view_items().len() == if old(self).view_items().len() < HISTORY_CAP {
                old(self).view_items().len() as int + 1
            } else {
                HISTORY_CAP as int
            },
            final(self).view_items()[0] == item,
            forall|i: int|
                1 <= i < final(self).view_items().len() ==> final(self).view_items()[i] == old(
                    self,
                ).view_items()[i - 1],
    {
        self.items.insert(0, item);
        if self.items.len() > HISTORY_CAP {
            self.items.pop();
        }
        proof {
            assert forall|i: int| 1 <= i < self.items@.len() implies self.items@[i] == old(
                self,
            ).items@[i - 1] by {
                assert(self.items@[i] == old(self).items@.insert(0, item)[i]);
            }
        }
    }

    /// Forgets everything.
    pub fn clear(&mut self)
        ensures
            final(self).wf(),
            final(self).view_items().len() == 0,
    {
        self.items.clear();
    }

    /// A copy of the remembered items, newest first.
    pub fn get_history(&self) -> (r: Vec<MaskHistoryItem>)
        ensures
            r@ == self.view_items(),
    {
        let mut r: Vec<MaskHistoryItem> = Vec::new();
        let mut i: usize = 0;
        while i < self.items.len()
            invariant
                0 <= i <= self.items@.len(),
                r@ == self.items@.take(i as int),
            decreases self.items@.len() - i,
        {
            r.push(self.items[i].clone());
            proof {
                assert(self.items@.take(i + 1 as int) =~= self.items@.take(i as int).push(
                    self.items@[i as int],
                ));
            }
            i = i + 1;
        }
        proof {
            assert(self.items@.take(self.items@.len() as int) =~= self.items@);
        }
        r
    }
}

// ===========================================================================
// The de-echo coordinator
// ===========================================================================

/// A byte that counts as blank when deciding whether clipboard text is worth
/// masking: space, tab, line feed, carriage return.
pub open spec fn is_blank_byte(b: u8) -> bool {
    b == 32 || b == 9 || b == 10 || b == 13
}

/// Text that is nothing but blanks (or empty) is not masked.
pub open spec fn spec_is_blank(s: Seq<u8>) -> bool {
    forall|i: int| 0 <= i < s.len() ==> is_blank_byte(#[trigger] s[i])
}

/// What the monitor should do with one clipboard change.
pub enum ClipDecision {
    /// Leave the clipboard alone: monitoring is off, the change is the
    /// monitor's own write-back, or the text is blank or too large.
    Ignore,
    /// The engine found nothing to redact; nothing is written back.
    Clean,
    /// Write the masked text back and raise the internal-change flag.
    WriteBack,
}

/// The de-echo coordinator: the monitor switch, the flag that marks the
/// monitor's own write-backs, and the cache of the last content seen, which
/// suppresses re-processing of identical reads.
pub struct ClipboardCoordinator {
    /// Whether automatic masking is on.
    pub monitor_on: bool,
    /// Raised while the monitor's own write-back is in flight, so the change
    /// event it causes is ignored.
    pub internal_change: bool,
    /// The last content seen or written, as bytes.
    pub last_content: Vec<u8>,
}

/// The decision for one clipboard change, given the flags, the text read,
/// and what the engine made of it.
pub open spec fn spec_decide(monitor_on: bool, internal_change: bool, text: Seq<u8>, masked: Seq<u8>) -> ClipDecision {
    if !monitor_on || internal_change {
        ClipDecision::Ignore
    } else if spec_is_blank(text) || text.len() > MAX_CLIP_LEN {
        ClipDecision::Ignore
    } else if masked == text {
        ClipDecision::Clean
    } else {
        ClipDecision::WriteBack
    }
}

/// Whether two byte strings are equal.
fn bytes_equal(a: &Vec<u8>, b: &Vec<u8>) -> (r: bool)
    ensures
        r == (a@ == b@),
{
    if a.len() != b.len() {
        proof {
            assert(a@ != b@);
        }
        return false;
    }
    let mut i: usize = 0;
    while i < a.len()
        invariant
            0 <= i <= a@.len(),
            a@.len() == b@.len(),
            forall|j: int| 0 <= j < i ==> a@[j] == b@[j],
        decreases a@.len() - i,
    {
        if a[i] != b[i] {
            return false;
        }
        i = i + 1;
    }
    proof {
        assert(a@ =~= b@);
    }
    true
}

impl ClipboardCoordinator {
    /// A fresh coordinator: monitoring on, no write-back in flight, nothing
    /// seen yet.
    pub fn new() -> (r: Self)
        ensures
            r.monitor_on,
            !r.internal_change,
            r.last_content@.len() == 0,
    {
        ClipboardCoordinator { monitor_on: true, internal_change: false, last_content: Vec::new() }
    }

    /// Turns automatic masking on or off.
    pub fn set_monitor(&mut self, enabled: bool)
        ensures
            final(self).monitor_on == enabled,
            final(self).internal_change == old(self).internal_change,
            final(self).last_content == old(self).last_content,
    {
        self.monitor_on = enabled;
    }

    /// Whether a polled clipboard read is a real change worth processing:
    /// non-empty and different from the last content seen.
    pub fn should_process(&self, text: &Vec<u8>) -> (r: bool)
        ensures
            r == (text@.len() > 0 && text@ != self.last_content@),
    {
        if text.len() == 0 {
            return false;
        }
        !bytes_equal(text, &self.last_content)
    }

    /// Decides what to do with one clipboard change: nothing while the
    /// monitor is off or the change is the monitor's own write-back; nothing
    /// for blank or oversized text; nothing when the engine's output equals
    /// the input; otherwise the masked text is written back.
    pub fn decide(&self, text: &Vec<u8>, masked: &Vec<u8>) -> (r: ClipDecision)
        ensures
            r == spec_decide(self.monitor_on, self.internal_change, text@, masked@),
    {
        if !self.monitor_on || self.internal_change {
            return ClipDecision::Ignore;
        }
        let mut all_blank = true;
        let mut i: usize = 0;
        while i < text.len()
            invariant
                0 <= i <= text@.len(),
                all_blank == (forall|j: int| 0 <= j < i ==> is_blank_byte(#[trigger] text@[j])),
            decreases text@.len() - i,
        {
            let b = text[i];
            if !(b == 32 || b == 9 || b == 10 || b == 13) {
                all_blank = false;
            }
            i = i + 1;
        }
        if all_blank || text.len() > MAX_CLIP_LEN {
            return ClipDecision::Ignore;
        }
        if bytes_equal(masked, text) {
            ClipDecision::Clean
        } else {
            ClipDecision::WriteBack
        }
    }

    /// Starts a write-back: remembers the masked text as the last content
    /// and raises the internal-change flag, so the change event the
    /// write-back causes is ignored.
    pub fn begin_write_back(&mut self, masked: &Vec<u8>)
        ensures
            final(self).internal_change,
            final(self).last_content@ == masked@,
            final(self).monitor_on == old(self).monitor_on,
    {
        self.internal_change = true;
        let mut copy: Vec<u8> = Vec::new();
        let mut i: usize = 0;
        while i < masked.len()
            invariant
                0 <= i <= masked@.len(),
                copy@ == masked@.take(i as int),
            decreases masked@.len() - i,
        {
            copy.push(masked[i]);
            proof {
                assert(masked@.take(i + 1 as int) =~= masked@.take(i as int).push(
                    masked@[i as int],
                ));
            }
            i = i + 1;
        }
        proof {
            assert(masked@.take(masked@.len() as int) =~= masked@);
        }
        self.last_content = copy;
    }

    /// Ends a write-back: lowers the internal-change flag.
    pub fn end_write_back(&mut self)
        ensures
            !final(self).internal_change,
            final(self).monitor_on == old(self).monitor_on,
            final(self).last_content == old(self).last_content,
    {
        self.internal_change = false;
    }

    /// Remembers text the user copies deliberately, so the monitor skips
    /// the change it causes instead of masking it again.
    pub fn note_manual_copy(&mut self, text: Vec<u8>)
        ensures
            final(self).last_content@ == text@,
            final(self).monitor_on == old(self).monitor_on,
            final(self).internal_change == old(self).internal_change,
    {
        self.last_content = text;
    }
}

// ===========================================================================
// Event names and payload shapes
// ===========================================================================

/// The names of the events the host sends to its front end.
pub struct AppEvents;

impl AppEvents {
    /// File-processing progress.
    pub fn file_progress() -> (r: String)
        ensures
            r@ == "file-progress"@,
    {
        "file-progress".to_owned()
    }

    /// A clipboard masking happened.
    pub fn masked_event() -> (r: String)
        ensures
            r@ == "masked-event"@,
    {
        "masked-event".to_owned()
    }

    /// A new history entry exists.
    pub fn new_history() -> (r: String)
        ensures
            r@ == "new-history"@,
    {
        "new-history".to_owned()
    }

    /// The host asks the front end to confirm closing.
    pub fn request_close() -> (r: String)
        ensures
            r@ == "request-close"@,
    {
        "request-close".to_owned()
    }
}

/// What a masking notification carries.
pub struct MaskNotificationPayload {
    pub message: String,
    pub content: Option<String>,
}

/// What a finished file run reports to the front end.
pub struct ProcessResponse {
    pub message: String,
    pub output_path: String,
    pub output_dir: String,
    pub duration: String,
    pub throughput: String,
}

} // verus!

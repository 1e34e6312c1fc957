//! One recorded forward navigation: identifier, resulting path, timestamp.

use vstd::prelude::*;

verus! {

/// Byte value of the record separator in the backing file.
pub const NL: u8 = 10;

/// Byte value of the field separator inside one record.
pub const SP: u8 = 32;

/// Mathematical model of an [`Entry`]: the same three fields with the path
/// as a sequence of bytes.
pub ghost struct EntryModel {
    pub id: u64,
    pub timestamp: u64,
    pub path: Seq<u8>,
}

/// Immutable record of one completed forward navigation.
///
/// `id` is the ordering key, assigned at push time and strictly increasing
/// from the bottom of the stack to the top. `timestamp` is kept for display
/// only and plays no role in the ordering logic. `path` holds the bytes of
/// the destination path.
pub struct Entry {
    pub id: u64,
    pub timestamp: u64,
    pub path: Vec<u8>,
}

impl View for Entry {
    type V = EntryModel;

    open spec fn view(&self) -> EntryModel {
        EntryModel { id: self.id, timestamp: self.timestamp, path: self.path@ }
    }
}

/// A path that can stand in one record: non-empty, and free of the record
/// separator so that the line-oriented encoding stays unambiguous.
pub open spec fn path_wf(p: Seq<u8>) -> bool {
    p.len() > 0 && !p.contains(NL)
}

/// Well-formedness of a single entry.
pub open spec fn entry_wf(e: EntryModel) -> bool {
    path_wf(e.path)
}

/// Models of a sequence of entries, in the same order.
pub open spec fn entries_view(s: Seq<Entry>) -> Seq<EntryModel> {
    s.map_values(|e: Entry| e@)
}

} // verus!

use vstd::prelude::*;
use crate::text::{chars_equal, chars_of};

verus! {

/// What the annotation of one photo says, as it comes in.
#[derive(Debug)]
pub struct GroupItem {
    pub file: String,
    pub role: String,
    pub machine_type: String,
    pub machine_id: String,
    pub has_board: bool,
    pub detected_text: String,
    pub description: String,
}

/// The annotation of one photo. `machine_id` is the identity by which photos
/// are grouped; `group` is 0 until the photo has been assigned to a group.
#[derive(Debug)]
pub struct GroupRecord {
    pub role: String,
    pub machine_type: String,
    pub machine_id: String,
    pub group: u32,
    pub has_board: bool,
    pub detected_text: String,
    pub description: String,
    pub captured_at: Option<i64>,
}

/// A `GroupRecord` as a mathematical value.
pub struct RecordView {
    pub role: Seq<char>,
    pub machine_type: Seq<char>,
    pub machine_id: Seq<char>,
    pub group: u32,
    pub has_board: bool,
    pub detected_text: Seq<char>,
    pub description: Seq<char>,
    pub captured_at: Option<i64>,
}

impl View for GroupRecord {
    type V = RecordView;

    open spec fn view(&self) -> RecordView {
        RecordView {
            role: self.role@,
            machine_type: self.machine_type@,
            machine_id: self.machine_id@,
            group: self.group,
            has_board: self.has_board,
            detected_text: self.detected_text@,
            description: self.description@,
            captured_at: self.captured_at,
        }
    }
}

impl GroupRecord {
    /// The record that an incoming annotation starts as: not yet grouped,
    /// taken at an unknown time.
    pub fn from_item(item: &GroupItem) -> (r: GroupRecord)
        ensures
            r@ == (RecordView {
                role: item.role@,
                machine_type: item.machine_type@,
                machine_id: item.machine_id@,
                group: 0,
                has_board: item.has_board,
                detected_text: item.detected_text@,
                description: item.description@,
                captured_at: None,
            }),
    {
        GroupRecord {
            role: item.role.clone(),
            machine_type: item.machine_type.clone(),
            machine_id: item.machine_id.clone(),
            group: 0,
            has_board: item.has_board,
            detected_text: item.detected_text.clone(),
            description: item.description.clone(),
            captured_at: None,
        }
    }

    /// A copy of the record.
    pub fn duplicate(&self) -> (r: GroupRecord)
        ensures
            r@ == self@,
    {
        GroupRecord {
            role: self.role.clone(),
            machine_type: self.machine_type.clone(),
            machine_id: self.machine_id.clone(),
            group: self.group,
            has_board: self.has_board,
            detected_text: self.detected_text.clone(),
            description: self.description.clone(),
            captured_at: self.captured_at,
        }
    }
}

/// One photo: its file name and its annotation.
pub struct PhotoEntry {
    pub file: String,
    pub record: GroupRecord,
}

/// The annotations of a folder of photos, one per file name.
pub struct GroupRecords {
    pub entries: Vec<PhotoEntry>,
}

impl View for GroupRecords {
    type V = Seq<(Seq<char>, RecordView)>;

    open spec fn view(&self) -> Seq<(Seq<char>, RecordView)> {
        self.entries@.map_values(|e: PhotoEntry| (e.file@, e.record@))
    }
}

/// No file name occurs twice.
pub open spec fn distinct_files(s: Seq<(Seq<char>, RecordView)>) -> bool {
    forall|i: int, j: int| 0 <= i < j < s.len() ==> s[i].0 != s[j].0
}

impl GroupRecords {
    /// Every file name has one annotation.
    pub open spec fn wf(&self) -> bool {
        distinct_files(self@)
    }

    pub fn new() -> (r: GroupRecords)
        ensures
            r@.len() == 0,
            r.wf(),
    {
        GroupRecords { entries: Vec::new() }
    }

    pub fn len(&self) -> (n: usize)
        ensures
            n == self@.len(),
    {
        self.entries.len()
    }

    /// The position of `file` among the entries.
    pub fn position(&self, file: &str) -> (r: Option<usize>)
        ensures
            match r {
                Some(i) => i < self@.len() && self@[i as int].0 == file@ && forall|j: int|
                    0 <= j < i ==> self@[j].0 != file@,
                None => forall|j: int| 0 <= j < self@.len() ==> self@[j].0 != file@,
            },
    {
        let name = chars_of(file);
        let mut i: usize = 0;
        while i < self.entries.len()
            invariant
                i <= self.entries.len(),
                name@ == file@,
                forall|j: int| 0 <= j < i ==> self@[j].0 != file@,
            decreases self.entries.len() - i,
        {
            let other = chars_of(self.entries[i].file.as_str());
            if chars_equal(&other, &name) {
                return Some(i);
            }
            i += 1;
        }
        None
    }

    /// The annotation of `file`, if it has one.
    pub fn get(&self, file: &str) -> (r: Option<&GroupRecord>)
        ensures
            match r {
                Some(rec) => exists|i: int|
                    0 <= i < self@.len() && self@[i] == (file@, rec@) && forall|j: int|
                        0 <= j < i ==> self@[j].0 != file@,
                None => forall|j: int| 0 <= j < self@.len() ==> self@[j].0 != file@,
            },
    {
        match self.position(file) {
            Some(i) => Some(&self.entries[i].record),
            None => None,
        }
    }

    /// Sets the annotation of `file`: in place of the one it had, or as a new
    /// last entry.
    pub fn insert(&mut self, file: String, record: GroupRecord)
        requires
            old(self).wf(),
        ensures
            final(self).wf(),
            match old(self).index_of(file@) {
                Some(i) => final(self)@ == old(self)@.update(i, (file@, record@)),
                None => final(self)@ == old(self)@.push((file@, record@)),
            },
    {
        let ghost before = self@;
        match self.position(file.as_str()) {
            Some(i) => {
                self.entries.set(i, PhotoEntry { file, record });
                assert(self@ =~= before.update(i as int, (file@, record@)));
            },
            None => {
                self.entries.push(PhotoEntry { file, record });
                assert(self@ =~= before.push((file@, record@)));
            },
        }
    }

    /// The least position at which `file` stands, if it stands anywhere.
    pub open spec fn index_of(&self, file: Seq<char>) -> Option<int> {
        if exists|i: int| 0 <= i < self@.len() && self@[i].0 == file {
            Some(
                choose|i: int|
                    0 <= i < self@.len() && self@[i].0 == file && forall|j: int|
                        0 <= j < i ==> self@[j].0 != file,
            )
        } else {
            None
        }
    }
}

} // verus!

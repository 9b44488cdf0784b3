use vstd::hash_map::StringHashMap;
use vstd::prelude::*;

verus! {

/// Maps file names to dense integer ids and back, so that the rest of the
/// library compares and stores integers instead of names.
pub struct FileId {
    num_files: u32,
    index_to_name: Vec<String>,
    name_to_index: StringHashMap<u32>,
}

impl View for FileId {
    type V = Seq<Seq<char>>;

    /// The registered names, indexed by id.
    closed spec fn view(&self) -> Seq<Seq<char>> {
        self.index_to_name@.map_values(|s: String| s@)
    }
}

impl FileId {
    /// The counter, the table of names and the reverse map agree: each name
    /// is registered once, under its position in the table.
    pub closed spec fn wf(&self) -> bool {
        &&& self.num_files == self.index_to_name@.len()
        &&& forall|i: int|
            0 <= i < self.index_to_name@.len() ==> #[trigger] self.name_to_index@.contains_key(
                self.index_to_name@[i]@,
            ) && self.name_to_index@[self.index_to_name@[i]@] == i
        &&& forall|k: Seq<char>|
            #[trigger] self.name_to_index@.contains_key(k) ==> self.name_to_index@[k]
                < self.index_to_name@.len() && self.index_to_name@[self.name_to_index@[k] as int]@
                == k
    }

    /// An empty table.
    pub fn new() -> (r: FileId)
        ensures
            r.wf(),
            r@ == Seq::<Seq<char>>::empty(),
    {
        let r = FileId { num_files: 0, index_to_name: Vec::new(), name_to_index: StringHashMap::new() };
        assert(r@ =~= Seq::<Seq<char>>::empty());
        r
    }

    /// Registers a file name: a fresh id when the name is new, `None` when
    /// it was registered before.
    pub fn register_file(&mut self, file_name: &str) -> (r: Option<u32>)
        requires
            old(self).wf(),
            !old(self)@.contains(file_name@) ==> old(self)@.len() < u32::MAX,
        ensures
            final(self).wf(),
            old(self)@.contains(file_name@) ==> r is None && final(self)@ == old(self)@,
            !old(self)@.contains(file_name@) ==> r == Some(old(self)@.len() as u32) && final(self)@
                == old(self)@.push(file_name@),
    {
        if self.name_to_index.contains_key(file_name) {
            proof {
                let i = self.name_to_index@[file_name@] as int;
                assert(self@[i] == file_name@);
            }
            return None;
        }
        proof {
            if self@.contains(file_name@) {
                let i = choose|i: int| 0 <= i < self@.len() && self@[i] == file_name@;
                assert(self.index_to_name@[i]@ == file_name@);
            }
        }
        let ghost before = self@;
        let num = self.num_files;
        let name = file_name.to_string();
        let key = file_name.to_string();
        self.index_to_name.push(name);
        self.name_to_index.insert(key, num);
        self.num_files = num + 1;
        assert(self@ =~= before.push(file_name@));
        proof {
            assert forall|i: int| 0 <= i < self.index_to_name@.len() implies #[trigger] self.name_to_index@.contains_key(
                self.index_to_name@[i]@,
            ) && self.name_to_index@[self.index_to_name@[i]@] == i by {
                if i < num {
                    assert(self.index_to_name@[i]@ == before[i]);
                    assert(before[i] != file_name@);
                }
            }
        }
        Some(num)
    }

    /// Whether `file_name` is registered.
    pub fn is_registered(&self, file_name: &str) -> (r: bool)
        requires
            self.wf(),
        ensures
            r == self@.contains(file_name@),
    {
        let r = self.name_to_index.contains_key(file_name);
        proof {
            if r {
                let i = self.name_to_index@[file_name@] as int;
                assert(self@[i] == file_name@);
            }
            if self@.contains(file_name@) {
                let i = choose|i: int| 0 <= i < self@.len() && self@[i] == file_name@;
                assert(self.index_to_name@[i]@ == file_name@);
            }
        }
        r
    }

    /// The name registered under `index`.
    pub fn id_to_name(&self, index: u32) -> (r: &str)
        requires
            index < self@.len(),
        ensures
            r@ == self@[index as int],
    {
        self.index_to_name[index as usize].as_str()
    }

    /// How many files are registered.
    pub fn number_files(&self) -> (r: u32)
        requires
            self.wf(),
        ensures
            r == self@.len(),
    {
        self.num_files
    }
}

} // verus!

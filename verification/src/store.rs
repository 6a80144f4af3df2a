use vstd::prelude::*;

verus! {

/// The first file in `s` registered under number `idx`, if any.
pub open spec fn spec_lookup(s: Seq<(u32, Vec<u8>)>, idx: u32) -> Option<Seq<u8>>
    decreases s.len(),
{
    if s.len() == 0 {
        None
    } else if s[0].0 == idx {
        Some(s[0].1@)
    } else {
        spec_lookup(s.drop_first(), idx)
    }
}

/// The block files of one cache, loaded into memory and registered under
/// their `data_N` file numbers. Decoding walks these buffers instead of the
/// files themselves, so it never touches the disk.
pub struct BlockFiles {
    files: Vec<(u32, Vec<u8>)>,
}

impl BlockFiles {
    /// The contents registered under file number `idx`, if any.
    pub closed spec fn spec_file(self, idx: u32) -> Option<Seq<u8>> {
        spec_lookup(self.files@, idx)
    }

    pub fn new() -> (r: Self)
        ensures
            forall|idx: u32| r.spec_file(idx) is None,
    {
        BlockFiles { files: Vec::new() }
    }

    /// Registers the contents of block file `data_N` for number `idx`.
    /// An earlier registration of the same number keeps priority.
    pub fn add(&mut self, idx: u32, data: Vec<u8>)
        ensures
            final(self).spec_file(idx) == (match old(self).spec_file(idx) {
                Some(f) => Some(f),
                None => Some(data@),
            }),
            forall|j: u32| j != idx ==> final(self).spec_file(j) == old(self).spec_file(j),
    {
        self.files.push((idx, data));
        proof {
            lemma_lookup_push(old(self).files@, idx, data);
        }
    }

    fn get_from(&self, idx: u32, i: usize) -> (r: Option<&Vec<u8>>)
        requires
            i <= self.files@.len(),
        ensures
            match r {
                Some(v) => spec_lookup(self.files@.skip(i as int), idx) == Some(v@),
                None => spec_lookup(self.files@.skip(i as int), idx) is None,
            },
        decreases self.files@.len() - i,
    {
        proof {
            assert(self.files@.skip(i as int).len() == self.files@.len() - i);
        }
        if i == self.files.len() {
            None
        } else {
            proof {
                assert(self.files@.skip(i as int)[0] == self.files@[i as int]);
                assert(self.files@.skip(i as int).drop_first() =~= self.files@.skip(i + 1));
            }
            let entry = &self.files[i];
            if entry.0 == idx {
                Some(&entry.1)
            } else {
                self.get_from(idx, i + 1)
            }
        }
    }

    /// Looks up the contents registered under file number `idx`.
    pub fn get(&self, idx: u32) -> (r: Option<&Vec<u8>>)
        ensures
            match r {
                Some(v) => self.spec_file(idx) == Some(v@),
                None => self.spec_file(idx) is None,
            },
    {
        proof {
            assert(self.files@.skip(0) =~= self.files@);
        }
        self.get_from(idx, 0)
    }
}

/// Appending a file leaves every earlier registration in force and fills
/// only a number that had none.
proof fn lemma_lookup_push(s: Seq<(u32, Vec<u8>)>, idx: u32, data: Vec<u8>)
    ensures
        spec_lookup(s.push((idx, data)), idx) == (match spec_lookup(s, idx) {
            Some(f) => Some(f),
            None => Some(data@),
        }),
        forall|j: u32| j != idx ==> spec_lookup(s.push((idx, data)), j) == spec_lookup(s, j),
    decreases s.len(),
{
    if s.len() == 0 {
        assert(s.push((idx, data)).drop_first() =~= s);
        assert forall|j: u32| j != idx implies spec_lookup(s.push((idx, data)), j) == spec_lookup(s, j) by {
            assert(spec_lookup(s.push((idx, data)), j) == spec_lookup(s, j));
        }
    } else {
        assert(s.push((idx, data))[0] == s[0]);
        assert(s.push((idx, data)).drop_first() =~= s.drop_first().push((idx, data)));
        lemma_lookup_push(s.drop_first(), idx, data);
        assert forall|j: u32| j != idx implies spec_lookup(s.push((idx, data)), j) == spec_lookup(s, j) by {
            assert(spec_lookup(s.drop_first().push((idx, data)), j) == spec_lookup(s.drop_first(), j));
        }
    }
}

} // verus!

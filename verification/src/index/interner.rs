//! Compact ids for entity and scope strings.

use super::entry::InternId;
use crate::error::StoreError;
use crate::table::NameTable;
use vstd::prelude::*;

verus! {

/// Assigns ids to strings, in order of first use. Id zero is the sentinel and
/// stands for the empty string.
pub struct StringInterner {
    ids: NameTable<u32>,
}

impl StringInterner {
    /// Every string has its position as id.
    pub closed spec fn wf(&self) -> bool {
        &&& self.ids.wf()
        &&& self.ids.order().len() < u32::MAX
        &&& forall|i: int|
            0 <= i < self.ids.order().len() ==> self.ids.entries()[#[trigger] self.ids.order()[i]]
                == i + 1
        &&& !self.ids.order().contains(Seq::<char>::empty())
    }

    /// The interned strings, the first of which has id one.
    pub closed spec fn strings(&self) -> Seq<Seq<char>> {
        self.ids.order()
    }

    /// Strings are interned once, and the empty string never.
    pub proof fn lemma_strings(&self)
        requires
            self.wf(),
        ensures
            self.strings().no_duplicates(),
            !self.strings().contains(Seq::<char>::empty()),
            self.strings().len() < u32::MAX,
    {
        self.ids.lemma_order();
    }

    /// An interner without strings.
    pub fn new() -> (r: StringInterner)
        ensures
            r.wf(),
            r.strings() == Seq::<Seq<char>>::empty(),
    {
        let r = StringInterner { ids: NameTable::new() };
        assert(r.strings() =~= Seq::<Seq<char>>::empty());
        r
    }

    /// The id of `s`, which gets the next one if it has none.
    pub fn intern(&mut self, s: &str) -> (r: Result<InternId, StoreError>)
        requires
            old(self).wf(),
        ensures
            final(self).wf(),
            r matches Err(e) ==> e == StoreError::InternerFull,
            r is Err <==> s@.len() > 0 && !old(self).strings().contains(s@) && old(
                self,
            ).strings().len() == u32::MAX - 1,
            r matches Ok(id) ==> if s@.len() == 0 {
                id.number() == 0
            } else {
                1 <= id.number() <= final(self).strings().len() && final(self).strings()[id.number()
                    - 1] == s@
            },
            final(self).strings() == (if s@.len() == 0 || r is Err || old(
                self,
            ).strings().contains(s@) {
                old(self).strings()
            } else {
                old(self).strings().push(s@)
            }),
    {
        proof {
            self.ids.lemma_order();
        }
        let ghost before = self.ids.order();
        let empty: &str = "";
        proof {
            reveal_strlit("");
            assert(empty@ =~= Seq::<char>::empty());
        }
        if crate::text::str_equal(s, empty) {
            return Ok(InternId::sentinel());
        }
        assert(s@.len() > 0) by {
            if s@.len() == 0 {
                assert(s@ =~= Seq::<char>::empty());
            }
        }
        match self.ids.get(s) {
            Some(id) => {
                proof {
                    let i = before.index_of(s@);
                    assert(self.ids.entries()[before[i]] == i + 1);
                }
                Ok(InternId::from_u32(*id))
            },
            None => {
                let n: usize = self.ids.len();
                if n >= 4294967294 {
                    return Err(StoreError::InternerFull);
                }
                let id: u32 = n as u32 + 1;
                self.ids.insert(s, id);
                proof {
                    let after = self.ids.order();
                    assert(after == before.push(s@));
                    assert forall|i: int| 0 <= i < after.len() implies self.ids.entries()[
                    #[trigger] after[i]] == i + 1 by {
                        if i < before.len() {
                            assert(after[i] == before[i]);
                            assert(before.contains(before[i]));
                        }
                    }
                    assert forall|k: int| 0 <= k < after.len() implies #[trigger] after[k]
                        != Seq::<char>::empty() by {
                        if k < before.len() {
                            assert(before.contains(before[k]));
                        }
                    }
                    assert(after[before.len() as int] == s@);
                }
                Ok(InternId::from_u32(id))
            },
        }
    }

    /// The interned strings, without the sentinel.
    pub fn to_snapshot(&self) -> (r: Vec<String>)
        requires
            self.wf(),
        ensures
            string_views(r@) == self.strings(),
    {
        let mut out: Vec<String> = Vec::new();
        let mut i: usize = 0;
        while i < self.ids.len()
            invariant
                self.wf(),
                i <= self.strings().len(),
                out@.len() == i,
                forall|k: int| 0 <= k < i ==> (#[trigger] out@[k])@ == self.strings()[k],
            decreases self.strings().len() - i,
        {
            out.push(self.ids.name_at(i).to_owned());
            i += 1;
        }
        assert(string_views(out@) =~= self.strings());
        out
    }

    /// Intern exactly the strings of a snapshot that starts with the sentinel.
    pub fn replace_from_full_snapshot(&mut self, full: &Vec<String>)
        requires
            0 < full@.len() <= u32::MAX,
            string_views(full@)[0] == Seq::<char>::empty(),
            string_views(full@).no_duplicates(),
        ensures
            final(self).wf(),
            final(self).strings() == string_views(full@).skip(1),
    {
        let ghost views = string_views(full@);
        self.ids = NameTable::new();
        assert(self.strings() =~= Seq::<Seq<char>>::empty());
        assert(views.take(1).skip(1) =~= Seq::<Seq<char>>::empty());
        let mut i: usize = 1;
        while i < full.len()
            invariant
                views == string_views(full@),
                0 < full@.len() <= u32::MAX,
                views[0] == Seq::<char>::empty(),
                views.no_duplicates(),
                1 <= i <= full@.len(),
                self.wf(),
                self.strings() == views.take(i as int).skip(1),
            decreases full@.len() - i,
        {
            let ghost before = self.strings();
            proof {
                assert(views[i as int] != views[0]);
                assert(views[i as int] == full@[i as int]@);
                if views[i as int].len() == 0 {
                    assert(views[i as int] =~= Seq::<char>::empty());
                }
                if before.contains(views[i as int]) {
                    let k = before.index_of(views[i as int]);
                    assert(before[k] == views[k + 1]);
                }
            }
            let added = self.intern(full[i].as_str());
            assert(added is Ok);
            i += 1;
            assert(self.strings() =~= views.take(i as int).skip(1));
        }
        assert(views.take(views.len() as int) =~= views);
    }
}

/// The character sequences of strings.
pub open spec fn string_views(strings: Seq<String>) -> Seq<Seq<char>> {
    strings.map_values(|s: String| s@)
}

} // verus!

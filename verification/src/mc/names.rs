use vstd::prelude::*;

use crate::error::{Result, RmcError};

verus! {

/// Names under which sink measurements are registered, and the measurements that
/// are active in the current run, by registration index.
pub struct MeasurementNames {
    names: Vec<String>,
    active: Vec<usize>,
}

/// The error for an empty measurement name.
pub open spec fn empty_name_error(err: RmcError) -> bool {
    err matches RmcError::InvalidArgument(m) && m@ == "measurement name must be non-empty"@
}

/// The error for a name that is already registered.
pub open spec fn duplicate_name_error(err: RmcError, name: Seq<char>) -> bool {
    err matches RmcError::InvalidArgument(m) && m@ == "measurement '"@ + name + "' is already registered"@
}

/// Result keys written by a measurement are scoped under its name: `prefix/key`.
pub open spec fn scoped_path_spec(prefix: Seq<char>, key: Seq<char>) -> Seq<char> {
    prefix + "/"@ + key
}

/// The path under which a scoped sink stores `key`.
pub fn scoped_path(prefix: &str, key: &str) -> (r: String)
    ensures
        r@ == scoped_path_spec(prefix@, key@),
{
    String::from_str(prefix).concat("/").concat(key)
}

impl MeasurementNames {
    /// The registered names, in registration order.
    pub closed spec fn names_view(&self) -> Seq<Seq<char>> {
        self.names@.map_values(|s: String| s@)
    }

    /// The active registration indices.
    pub closed spec fn active_view(&self) -> Seq<usize> {
        self.active@
    }

    /// Names are non-empty and distinct; active indices refer to registered names.
    pub open spec fn wf(&self) -> bool {
        &&& forall|i: int| 0 <= i < self.names_view().len() ==> #[trigger] self.names_view()[i].len() > 0
        &&& forall|i: int, j: int|
            0 <= i < j < self.names_view().len() ==> #[trigger] self.names_view()[i] != #[trigger] self.names_view()[j]
        &&& forall|k: int| 0 <= k < self.active_view().len() ==> #[trigger] self.active_view()[k] < self.names_view().len()
    }

    pub fn new() -> (r: Self)
        ensures
            r.wf(),
            r.names_view() == Seq::<Seq<char>>::empty(),
            r.active_view() == Seq::<usize>::empty(),
    {
        let r = MeasurementNames { names: Vec::new(), active: Vec::new() };
        assert(r.names_view() =~= Seq::<Seq<char>>::empty());
        r
    }

    /// Index of the measurement registered under `name`.
    pub fn find(&self, name: &str) -> (r: Option<usize>)
        ensures
            r matches Some(i) ==> i < self.names_view().len() && self.names_view()[i as int] == name@,
            r matches Some(i) ==> forall|j: int| 0 <= j < i ==> self.names_view()[j] != name@,
            r is None ==> forall|j: int| 0 <= j < self.names_view().len() ==> self.names_view()[j] != name@,
    {
        let target = String::from_str(name);
        let mut i: usize = 0;
        while i < self.names.len()
            invariant
                i <= self.names@.len(),
                target@ == name@,
                forall|j: int| 0 <= j < i ==> self.names_view()[j] != name@,
            decreases self.names@.len() - i,
        {
            if self.names[i] == target {
                return Some(i);
            }
            i = i + 1;
        }
        None
    }

    /// Register `name`, rejecting an empty name and one that is already taken.
    pub fn register(&mut self, name: &str) -> (r: Result<usize>)
        requires
            old(self).wf(),
        ensures
            final(self).wf(),
            name@.len() == 0 ==> (r matches Err(e) && empty_name_error(e)),
            name@.len() > 0 && old(self).names_view().contains(name@) ==> (r matches Err(e) && duplicate_name_error(e, name@)),
            r is Ok <==> (name@.len() > 0 && !old(self).names_view().contains(name@)),
            r matches Ok(i) ==> i == old(self).names_view().len() && final(self).names_view() == old(self).names_view().push(name@),
            r is Err ==> final(self).names_view() == old(self).names_view(),
            final(self).active_view() == old(self).active_view(),
    {
        if name.is_empty() {
            proof {
                reveal_strlit("measurement name must be non-empty");
            }
            return Err(RmcError::InvalidArgument(String::from_str("measurement name must be non-empty")));
        }
        match self.find(name) {
            Some(i) => {
                proof {
                    assert(self.names_view().contains(name@));
                    reveal_strlit("measurement '");
                    reveal_strlit("' is already registered");
                }
                let msg = String::from_str("measurement '").concat(name).concat("' is already registered");
                Err(RmcError::InvalidArgument(msg))
            },
            None => {
                let ghost old_view = self.names_view();
                assert(!old_view.contains(name@));
                let index = self.names.len();
                self.names.push(String::from_str(name));
                assert(self.names_view() =~= old_view.push(name@));
                assert forall|i: int, j: int|
                    0 <= i < j < self.names_view().len() implies #[trigger] self.names_view()[i]
                        != #[trigger] self.names_view()[j] by {
                    if j == old_view.len() {
                        assert(self.names_view()[i] == old_view[i]);
                    } else {
                        assert(self.names_view()[i] == old_view[i]);
                        assert(self.names_view()[j] == old_view[j]);
                    }
                }
                assert forall|k: int| 0 <= k < self.active_view().len() implies #[trigger] self.active_view()[k] < self.names_view().len() by {
                    assert(old(self).active_view()[k] < old_view.len());
                }
                Ok(index)
            },
        }
    }

    /// Activate every registered measurement, in registration order.
    pub fn refresh_active(&mut self)
        requires
            old(self).wf(),
        ensures
            final(self).wf(),
            final(self).names_view() == old(self).names_view(),
            final(self).active_view() == Seq::new(old(self).names_view().len(), |i: int| i as usize),
    {
        self.active.clear();
        let n = self.names.len();
        let mut i: usize = 0;
        while i < n
            invariant
                self.names == old(self).names,
                n == self.names@.len(),
                i <= n,
                self.active@ == Seq::new(i as nat, |k: int| k as usize),
            decreases n - i,
        {
            self.active.push(i);
            assert(self.active@ =~= Seq::new((i + 1) as nat, |k: int| k as usize));
            i = i + 1;
        }
        assert(self.names_view() == old(self).names_view());
    }

    /// Deactivate every measurement.
    pub fn clear_active(&mut self)
        requires
            old(self).wf(),
        ensures
            final(self).wf(),
            final(self).names_view() == old(self).names_view(),
            final(self).active_view() == Seq::<usize>::empty(),
    {
        self.active.clear();
        assert(self.names_view() == old(self).names_view());
    }

    pub fn active_indices(&self) -> (r: &[usize])
        ensures
            r@ == self.active_view(),
    {
        self.active.as_slice()
    }

    pub fn len(&self) -> (r: usize)
        ensures
            r == self.names_view().len(),
    {
        self.names.len()
    }

    pub fn is_empty(&self) -> (r: bool)
        ensures
            r == (self.names_view().len() == 0),
    {
        self.names.len() == 0
    }
}

} // verus!

use vstd::prelude::*;

use crate::error::Status;

verus! {

/// A request to a directory driver, as its record of requests keeps it: what was asked,
/// of which child, and whether the child is taken as a directory.
pub open spec fn driver_request(kind: u8, name: Seq<char>, directory: bool) -> (u8, Seq<char>, bool) {
    (kind, name, directory)
}

/// The request to count the children of the sub-directory `name`.
pub open spec fn count_request(name: Seq<char>) -> (u8, Seq<char>, bool) {
    driver_request(0, name, true)
}

/// The request to remove the entry `name` from the volume.
pub open spec fn remove_request(name: Seq<char>) -> (u8, Seq<char>, bool) {
    driver_request(1, name, false)
}

/// The request to create the file (or, when `directory` holds, the sub-directory) `name`.
pub open spec fn make_request(name: Seq<char>, directory: bool) -> (u8, Seq<char>, bool) {
    driver_request(2, name, directory)
}

/// The request to open the child `name`, as a sub-directory when `directory` holds.
pub open spec fn open_request(name: Seq<char>, directory: bool) -> (u8, Seq<char>, bool) {
    driver_request(3, name, directory)
}

/// What the driver of a directory does for the directory's cached owner. Drivers
/// implement this trait. What each request comes to on the volume is the driver's to
/// decide; a driver promises that it records each request it receives, in order, in its
/// record of requests.
pub trait DirectoryDriver {
    /// The requests received, oldest first.
    spec fn requests(&self) -> Seq<(u8, Seq<char>, bool)>;

    /// Opens the sub-directory `name` and counts its children.
    fn count_children(&mut self, name: &str) -> (r: Result<usize, Status>)
        ensures
            final(self).requests() == old(self).requests().push(count_request(name@)),
    ;

    /// Removes the entry `name` from the directory on its volume.
    fn remove(&mut self, name: &str) -> (r: Result<(), Status>)
        ensures
            final(self).requests() == old(self).requests().push(remove_request(name@)),
    ;

    /// Creates an empty file `name` in the directory on its volume.
    fn make_file(&mut self, name: &str) -> (r: Result<(), Status>)
        ensures
            final(self).requests() == old(self).requests().push(make_request(name@, false)),
    ;

    /// Creates an empty sub-directory `name` in the directory on its volume.
    fn make_directory(&mut self, name: &str) -> (r: Result<(), Status>)
        ensures
            final(self).requests() == old(self).requests().push(make_request(name@, true)),
    ;

    /// Opens the child `name`, a sub-directory when `directory` holds and a file otherwise.
    fn open_child(&mut self, name: &str, directory: bool) -> (r: Result<(), Status>)
        ensures
            final(self).requests() == old(self).requests().push(open_request(name@, directory)),
    ;
}

/// A child of a directory as its owner keeps it: its name, whether it is a directory, its
/// size, and whether a handle to it is open.
pub struct ChildRecord {
    pub name: String,
    pub is_directory: bool,
    pub size: usize,
    pub open: bool,
}

/// A directory together with the children it was found to hold.
pub struct DirectoryOwner<D: DirectoryDriver> {
    directory: D,
    children: Vec<ChildRecord>,
    references: usize,
}

/// A child as plain values: name, whether a directory, size, whether open.
pub open spec fn child_view(c: ChildRecord) -> (Seq<char>, bool, usize, bool) {
    (c.name@, c.is_directory, c.size, c.open)
}

/// What removing a child of the wanted name comes to, given what the driver answers (the
/// children count of the sub-directory, then the removal): whether the child stays, and
/// the status it leaves. An open child stays and is in use; a directory whose children
/// cannot be counted stays with that error; one that has children stays and is not
/// empty; any other child is removed from the cache, whatever the removal on the volume
/// reports, and leaves that report.
pub open spec fn removal_step(c: (Seq<char>, bool, usize, bool), count: Result<usize, Status>, removed: Result<(), Status>) -> (bool, Status) {
    if c.3 {
        (true, Status::InUse)
    } else if c.1 && count is Err {
        (true, count->Err_0)
    } else if c.1 && count->Ok_0 != 0 {
        (true, Status::NotEmpty)
    } else {
        (
            false,
            match removed {
                Ok(_) => Status::Success,
                Err(e) => e,
            },
        )
    }
}

/// The children kept and the status left once the first `k` children have been taken in
/// turn, the driver answering `answers[i]` for child `i`: a child of another name stays;
/// the status starts as `NoEntry`, and each child of the wanted name sets it.
pub open spec fn removal(
    children: Seq<(Seq<char>, bool, usize, bool)>,
    name: Seq<char>,
    answers: Seq<(Result<usize, Status>, Result<(), Status>)>,
    k: int,
) -> (Seq<(Seq<char>, bool, usize, bool)>, Status)
    decreases k,
{
    if k <= 0 {
        (Seq::empty(), Status::NoEntry)
    } else {
        let prev = removal(children, name, answers, k - 1);
        let c = children[k - 1];
        if c.0 != name {
            (prev.0.push(c), prev.1)
        } else {
            let step = removal_step(c, answers[k - 1].0, answers[k - 1].1);
            (if step.0 {
                prev.0.push(c)
            } else {
                prev.0
            }, step.1)
        }
    }
}

/// The requests made of the driver once the first `k` children have been taken in turn,
/// the driver answering `answers[i]` for child `i`: for each closed child of the wanted
/// name, a directory's children are counted first, and the child is removed from the
/// volume unless it is a directory whose count failed or found children.
pub open spec fn removal_requests(
    children: Seq<(Seq<char>, bool, usize, bool)>,
    name: Seq<char>,
    answers: Seq<(Result<usize, Status>, Result<(), Status>)>,
    k: int,
) -> Seq<(u8, Seq<char>, bool)>
    decreases k,
{
    if k <= 0 {
        Seq::empty()
    } else {
        let prev = removal_requests(children, name, answers, k - 1);
        let c = children[k - 1];
        let count = answers[k - 1].0;
        if c.0 != name || c.3 {
            prev
        } else if c.1 {
            if count is Ok && count->Ok_0 == 0 {
                prev.push(count_request(name)).push(remove_request(name))
            } else {
                prev.push(count_request(name))
            }
        } else {
            prev.push(remove_request(name))
        }
    }
}

/// The result a status stands for: success, or the error.
pub open spec fn status_result(s: Status) -> Result<(), Status> {
    if s == Status::Success {
        Ok(())
    } else {
        Err(s)
    }
}

/// No child has the name, so removing it keeps every child and reports `NoEntry`.
pub proof fn lemma_removal_missing(
    children: Seq<(Seq<char>, bool, usize, bool)>,
    name: Seq<char>,
    answers: Seq<(Result<usize, Status>, Result<(), Status>)>,
    k: int,
)
    requires
        0 <= k <= children.len(),
        forall|i: int| 0 <= i < k ==> (#[trigger] children[i]).0 != name,
    ensures
        removal(children, name, answers, k) == (children.take(k), Status::NoEntry),
    decreases k,
{
    if k > 0 {
        lemma_removal_missing(children, name, answers, k - 1);
        assert(children.take(k - 1).push(children[k - 1]) =~= children.take(k));
    }
}

/// Every child with the name is open, and one is: removing it keeps every child and
/// reports `InUse`, whatever the driver would answer.
pub proof fn lemma_removal_in_use(
    children: Seq<(Seq<char>, bool, usize, bool)>,
    name: Seq<char>,
    answers: Seq<(Result<usize, Status>, Result<(), Status>)>,
    k: int,
)
    requires
        0 <= k <= children.len(),
        forall|i: int| 0 <= i < k && (#[trigger] children[i]).0 == name ==> children[i].3,
    ensures
        removal(children, name, answers, k).0 == children.take(k),
        (exists|i: int| 0 <= i < k && (#[trigger] children[i]).0 == name) ==> removal(children, name, answers, k).1
            == Status::InUse,
        (forall|i: int| 0 <= i < k ==> (#[trigger] children[i]).0 != name) ==> removal(children, name, answers, k).1
            == Status::NoEntry,
    decreases k,
{
    if k > 0 {
        lemma_removal_in_use(children, name, answers, k - 1);
        assert(children.take(k - 1).push(children[k - 1]) =~= children.take(k));
        if exists|i: int| 0 <= i < k && (#[trigger] children[i]).0 == name {
            if children[k - 1].0 != name {
                let i = choose|i: int| 0 <= i < k && (#[trigger] children[i]).0 == name;
                assert(0 <= i < k - 1);
            }
        }
    }
}

/// Opening a child and then closing it gives back the children as they were: once
/// `open_child` has marked the first child named `name` open (it was closed and of the
/// kind asked for), that child is the first open child of that name and kind, the one
/// `close_child` closes, and marking it closed again restores the children.
pub proof fn lemma_open_then_close(
    children: Seq<(Seq<char>, bool, usize, bool)>,
    name: Seq<char>,
    directory: bool,
    j: int,
)
    requires
        0 <= j < children.len(),
        children[j].0 == name,
        forall|i: int| 0 <= i < j ==> (#[trigger] children[i]).0 != name,
        children[j].1 == directory,
        !children[j].3,
    ensures
        ({
            let c = children[j];
            let opened = children.update(j, (c.0, c.1, c.2, true));
            &&& opened[j].0 == name && opened[j].1 == directory && opened[j].3
            &&& forall|i: int| 0 <= i < j && (#[trigger] opened[i]).0 == name ==> !(opened[i].1 == directory && opened[i].3)
            &&& opened.update(j, (opened[j].0, opened[j].1, opened[j].2, false)) == children
        }),
{
    let c = children[j];
    let opened = children.update(j, (c.0, c.1, c.2, true));
    assert(opened.update(j, (opened[j].0, opened[j].1, opened[j].2, false)) =~= children);
}

impl<D: DirectoryDriver> DirectoryOwner<D> {
    /// The children as plain values, in order.
    pub closed spec fn children(&self) -> Seq<(Seq<char>, bool, usize, bool)> {
        self.children@.map_values(|c: ChildRecord| child_view(c))
    }

    /// A directory served by `directory`, holding `children`.
    pub fn new(directory: D, children: Vec<ChildRecord>) -> (r: Self)
        ensures
            r.children() == children@.map_values(|c: ChildRecord| child_view(c)),
            r.driver() == directory,
            r.spec_references() == 0,
    {
        DirectoryOwner { directory, children, references: 0 }
    }

    /// The directory's driver.
    pub closed spec fn driver(&self) -> D {
        self.directory
    }

    /// The directory's driver.
    pub fn directory(&self) -> (r: &D)
        ensures
            *r == self.driver(),
    {
        &self.directory
    }

    /// The number of children.
    pub fn child_count(&self) -> (r: usize)
        ensures
            r == self.children().len(),
    {
        self.children.len()
    }

    /// ChildRecord number `idx`, if there is one.
    pub fn get_child(&self, idx: usize) -> (r: Option<&ChildRecord>)
        ensures
            idx < self.children().len() ==> r is Some,
            r matches Some(c) ==> child_view(*c) == self.children()[idx as int],
            idx >= self.children().len() ==> r is None,
    {
        if idx < self.children.len() {
            Some(&self.children[idx])
        } else {
            None
        }
    }

    /// The number of handles open on the directory and on its children.
    pub closed spec fn spec_references(&self) -> usize {
        self.references
    }

    /// Counts one more handle open on the directory.
    pub fn open(&mut self)
        requires
            old(self).spec_references() < usize::MAX,
        ensures
            final(self).spec_references() == old(self).spec_references() + 1,
            final(self).children() == old(self).children(),
            final(self).driver() == old(self).driver(),
    {
        self.references = self.references + 1;
    }

    /// Counts one handle on the directory closed; the result tells whether none is left, in
    /// which case the directory is to be closed in its parent.
    pub fn close(&mut self) -> (r: bool)
        requires
            old(self).spec_references() > 0,
        ensures
            final(self).spec_references() == old(self).spec_references() - 1,
            final(self).children() == old(self).children(),
            final(self).driver() == old(self).driver(),
            r == (final(self).spec_references() == 0),
    {
        self.references = self.references - 1;
        self.references == 0
    }

    /// Opens the first child named `name`, as a sub-directory when `directory` holds and as
    /// a file otherwise: `NoEntry` when there is none; `NotDirectory` or `IsDirectory` when
    /// it is of the other kind; a child already open is handed out again (`Ok(false)`);
    /// otherwise the driver opens it and, once it has, the child is marked open and counts
    /// as one more handle (`Ok(true)`).
    pub fn open_child(&mut self, name: &str, directory: bool) -> (r: Result<bool, Status>)
        requires
            old(self).spec_references() < usize::MAX,
        ensures
            (forall|i: int| 0 <= i < old(self).children().len() ==> (#[trigger] old(self).children()[i]).0 != name@)
                ==> r == Err::<bool, Status>(Status::NoEntry) && *final(self) == *old(self),
            r is Err || r == Ok::<bool, Status>(false) ==> final(self).children() == old(self).children()
                && final(self).spec_references() == old(self).spec_references(),
            forall|j: int|
                0 <= j < old(self).children().len() && (#[trigger] old(self).children()[j]).0 == name@ && (forall|i: int|
                    0 <= i < j ==> (#[trigger] old(self).children()[i]).0 != name@) ==> {
                    let c = old(self).children()[j];
                    &&& c.1 != directory ==> r == Err::<bool, Status>(
                        if directory {
                            Status::NotDirectory
                        } else {
                            Status::IsDirectory
                        },
                    ) && *final(self) == *old(self)
                    &&& c.1 == directory && c.3 ==> r == Ok::<bool, Status>(false) && *final(self) == *old(self)
                    &&& c.1 == directory && !c.3 ==> r != Ok::<bool, Status>(false) && final(self).driver().requests()
                        == old(self).driver().requests().push(open_request(name@, directory))
                    &&& r == Ok::<bool, Status>(true) ==> final(self).children() == old(self).children().update(
                        j,
                        (c.0, c.1, c.2, true),
                    ) && final(self).spec_references() == old(self).spec_references() + 1
                },
    {
        let wanted = name.to_owned();
        let j = match self.position_of(&wanted) {
            Some(j) => j,
            None => {
                return Err(Status::NoEntry);
            },
        };
        if self.children[j].is_directory != directory {
            return Err(
                if directory {
                    Status::NotDirectory
                } else {
                    Status::IsDirectory
                },
            );
        }
        if self.children[j].open {
            return Ok(false);
        }
        match self.directory.open_child(name, directory) {
            Ok(()) => {},
            Err(e) => {
                return Err(e);
            },
        }
        let ghost before = self.children@;
        let mut c = self.children.remove(j);
        c.open = true;
        self.children.insert(j, c);
        self.references = self.references + 1;
        proof {
            assert(self.children@ =~= before.update(j as int, c));
            assert(self.children() =~= before.map_values(|c: ChildRecord| child_view(c)).update(
                j as int,
                (before[j as int].name@, before[j as int].is_directory, before[j as int].size, true),
            ));
        }
        Ok(true)
    }

    /// Closes the handle on the first open child named `name` of the kind `directory` says:
    /// the child is marked closed and counts as one handle fewer, and the result tells
    /// whether none is left, in which case the directory is to be closed in its parent. With
    /// no such child, nothing changes and the result is false.
    pub fn close_child(&mut self, name: &str, directory: bool) -> (r: bool)
        requires
            (exists|j: int|
                0 <= j < old(self).children().len() && (#[trigger] old(self).children()[j]).0 == name@
                    && old(self).children()[j].1 == directory && old(self).children()[j].3) ==> old(
                self,
            ).spec_references() > 0,
        ensures
            (forall|j: int|
                0 <= j < old(self).children().len() && (#[trigger] old(self).children()[j]).0 == name@ ==> !(old(
                    self,
                ).children()[j].1 == directory && old(self).children()[j].3)) ==> !r && *final(self) == *old(self),
            final(self).driver() == old(self).driver(),
            forall|j: int|
                0 <= j < old(self).children().len() && (#[trigger] old(self).children()[j]).0 == name@ && old(
                    self,
                ).children()[j].1 == directory && old(self).children()[j].3 && (forall|i: int|
                    0 <= i < j && (#[trigger] old(self).children()[i]).0 == name@ ==> !(old(self).children()[i].1
                        == directory && old(self).children()[i].3)) ==> {
                    let c = old(self).children()[j];
                    &&& final(self).children() == old(self).children().update(j, (c.0, c.1, c.2, false))
                    &&& final(self).spec_references() == old(self).spec_references() - 1
                    &&& r == (final(self).spec_references() == 0)
                },
    {
        let wanted = name.to_owned();
        let mut j: usize = 0;
        while j < self.children.len()
            invariant
                wanted@ == name@,
                *self == *old(self),
                (exists|j: int|
                    0 <= j < old(self).children().len() && (#[trigger] old(self).children()[j]).0 == name@
                        && old(self).children()[j].1 == directory && old(self).children()[j].3) ==> old(
                    self,
                ).spec_references() > 0,
                j <= self.children@.len(),
                forall|i: int|
                    0 <= i < j && (#[trigger] self.children()[i]).0 == name@ ==> !(self.children()[i].1 == directory
                        && self.children()[i].3),
            decreases self.children@.len() - j,
        {
            if self.children[j].name == wanted && self.children[j].is_directory == directory && self.children[j].open {
                let ghost before = self.children@;
                proof {
                    assert(self.children()[j as int] == child_view(self.children@[j as int]));
                    assert(self.children()[j as int].0 == name@);
                    assert(old(self).children().len() == self.children@.len());
                    assert(old(self).children()[j as int].0 == name@ && old(self).children()[j as int].1 == directory
                        && old(self).children()[j as int].3);
                    assert(old(self).spec_references() > 0);
                }
                let mut c = self.children.remove(j);
                c.open = false;
                self.children.insert(j, c);
                self.references = self.references - 1;
                proof {
                    assert(self.children@ =~= before.update(j as int, c));
                    assert(self.children() =~= before.map_values(|c: ChildRecord| child_view(c)).update(
                        j as int,
                        (before[j as int].name@, before[j as int].is_directory, before[j as int].size, false),
                    ));
                }
                return self.references == 0;
            }
            j = j + 1;
        }
        false
    }

    /// Where the first child named `name` stands, if any.
    fn position_of(&self, name: &String) -> (r: Option<usize>)
        ensures
            r matches Some(j) ==> j < self.children().len() && self.children()[j as int].0 == name@ && forall|i: int|
                0 <= i < j ==> (#[trigger] self.children()[i]).0 != name@,
            r is None ==> forall|i: int| 0 <= i < self.children().len() ==> (#[trigger] self.children()[i]).0 != name@,
    {
        let mut j: usize = 0;
        while j < self.children.len()
            invariant
                j <= self.children@.len(),
                forall|i: int| 0 <= i < j ==> (#[trigger] self.children()[i]).0 != name@,
            decreases self.children@.len() - j,
        {
            if self.children[j].name == *name {
                return Some(j);
            }
            j = j + 1;
        }
        None
    }

    /// The size of the first child named `name`, and whether it is a directory; `NoEntry`
    /// when there is none.
    pub fn get_metadata(&self, name: &str) -> (r: Result<(usize, bool), Status>)
        ensures
            (forall|i: int| 0 <= i < self.children().len() ==> (#[trigger] self.children()[i]).0 != name@) ==> r
                == Err::<(usize, bool), Status>(Status::NoEntry),
            r is Ok ==> exists|j: int|
                0 <= j < self.children().len() && (#[trigger] self.children()[j]).0 == name@ && (forall|i: int|
                    0 <= i < j ==> (#[trigger] self.children()[i]).0 != name@) && r == Ok::<(usize, bool), Status>(
                    (self.children()[j].2, self.children()[j].1),
                ),
            r is Err ==> r == Err::<(usize, bool), Status>(Status::NoEntry),
    {
        let wanted = name.to_owned();
        match self.position_of(&wanted) {
            Some(j) => Ok((self.children[j].size, self.children[j].is_directory)),
            None => Err(Status::NoEntry),
        }
    }

    /// Creates an empty file `name`: refused with `Exists` when a child has the name;
    /// otherwise the driver creates it on the volume, and once it has, the file joins the
    /// children, last, with size 0 and no handle open.
    pub fn create_file(&mut self, name: &str) -> (r: Result<(), Status>)
        ensures
            (exists|i: int| 0 <= i < old(self).children().len() && (#[trigger] old(self).children()[i]).0 == name@)
                ==> r == Err::<(), Status>(Status::Exists) && *final(self) == *old(self),
            !(exists|i: int| 0 <= i < old(self).children().len() && (#[trigger] old(self).children()[i]).0 == name@)
                ==> final(self).driver().requests() == old(self).driver().requests().push(make_request(name@, false)),
            r is Ok ==> final(self).children() == old(self).children().push((name@, false, 0usize, false)),
            r is Err ==> final(self).children() == old(self).children(),
            final(self).spec_references() == old(self).spec_references(),
    {
        self.create_child(name, false)
    }

    /// Creates an empty sub-directory `name`, as `create_file` creates a file.
    pub fn create_directory(&mut self, name: &str) -> (r: Result<(), Status>)
        ensures
            (exists|i: int| 0 <= i < old(self).children().len() && (#[trigger] old(self).children()[i]).0 == name@)
                ==> r == Err::<(), Status>(Status::Exists) && *final(self) == *old(self),
            !(exists|i: int| 0 <= i < old(self).children().len() && (#[trigger] old(self).children()[i]).0 == name@)
                ==> final(self).driver().requests() == old(self).driver().requests().push(make_request(name@, true)),
            r is Ok ==> final(self).children() == old(self).children().push((name@, true, 0usize, false)),
            r is Err ==> final(self).children() == old(self).children(),
            final(self).spec_references() == old(self).spec_references(),
    {
        self.create_child(name, true)
    }

    fn create_child(&mut self, name: &str, is_directory: bool) -> (r: Result<(), Status>)
        ensures
            (exists|i: int| 0 <= i < old(self).children().len() && (#[trigger] old(self).children()[i]).0 == name@)
                ==> r == Err::<(), Status>(Status::Exists) && *final(self) == *old(self),
            !(exists|i: int| 0 <= i < old(self).children().len() && (#[trigger] old(self).children()[i]).0 == name@)
                ==> final(self).driver().requests() == old(self).driver().requests().push(
                make_request(name@, is_directory),
            ),
            r is Ok ==> final(self).children() == old(self).children().push((name@, is_directory, 0usize, false)),
            r is Err ==> final(self).children() == old(self).children(),
            final(self).spec_references() == old(self).spec_references(),
    {
        let wanted = name.to_owned();
        if let Some(_) = self.position_of(&wanted) {
            return Err(Status::Exists);
        }
        let made = if is_directory {
            self.directory.make_directory(name)
        } else {
            self.directory.make_file(name)
        };
        match made {
            Ok(()) => {},
            Err(e) => {
                return Err(e);
            },
        }
        let ghost before = self.children@;
        self.children.push(ChildRecord { name: wanted, is_directory, size: 0, open: false });
        proof {
            assert(self.children() =~= before.map_values(|c: ChildRecord| child_view(c)).push(
                (name@, is_directory, 0usize, false),
            ));
        }
        Ok(())
    }

    /// Removes the child `name`: each child of that name is taken in turn; one with an open
    /// handle stays and the result is `InUse`; for a directory, its children are counted
    /// through the driver, and it stays where that fails (with that error) or finds any
    /// (`NotEmpty`); otherwise the driver removes it from the volume and it leaves the
    /// cache, whatever the driver reports, which becomes the result. The last child of the
    /// name decides the result; with none, it is `NoEntry`.
    pub fn remove(&mut self, name: &str) -> (r: Result<(), Status>)
        ensures
            exists|answers: Seq<(Result<usize, Status>, Result<(), Status>)>|
                answers.len() == old(self).children().len() && {
                    let out = #[trigger] removal(old(self).children(), name@, answers, old(self).children().len() as int);
                    &&& final(self).children() == out.0
                    &&& r == status_result(out.1)
                    &&& final(self).driver().requests() == old(self).driver().requests() + removal_requests(
                        old(self).children(),
                        name@,
                        answers,
                        old(self).children().len() as int,
                    )
                },
            final(self).spec_references() == old(self).spec_references(),
            (forall|i: int| 0 <= i < old(self).children().len() ==> (#[trigger] old(self).children()[i]).0 != name@)
                ==> r == Err::<(), Status>(Status::NoEntry) && final(self).children() == old(self).children(),
            (exists|i: int| 0 <= i < old(self).children().len() && (#[trigger] old(self).children()[i]).0 == name@)
                && (forall|i: int|
                0 <= i < old(self).children().len() && (#[trigger] old(self).children()[i]).0 == name@
                    ==> old(self).children()[i].3) ==> r == Err::<(), Status>(Status::InUse) && final(self).children()
                == old(self).children(),
    {
        let ghost cs = self.children();
        let ghost n = cs.len() as int;
        let ghost mut answers: Seq<(Result<usize, Status>, Result<(), Status>)> = Seq::empty();
        let wanted = name.to_owned();
        let mut status = Status::NoEntry;
        let mut kept: Vec<ChildRecord> = Vec::new();
        let mut i: usize = 0;
        let total = self.children.len();
        proof {
            assert(cs.len() == total);
            assert(cs.skip(0) =~= cs);
        }
        while self.children.len() > 0
            invariant
                cs == old(self).children(),
                n == cs.len(),
                n <= usize::MAX,
                wanted@ == name@,
                0 <= i <= n,
                self.children@.map_values(|c: ChildRecord| child_view(c)) == cs.skip(i as int),
                answers.len() == i,
                kept@.map_values(|c: ChildRecord| child_view(c)) == removal(cs, name@, answers, i as int).0,
                status == removal(cs, name@, answers, i as int).1,
                self.directory.requests() == old(self).directory.requests() + removal_requests(
                    cs,
                    name@,
                    answers,
                    i as int,
                ),
                self.references == old(self).references,
            decreases self.children@.len(),
        {
            let ghost before = self.children@;
            proof {
                let mv = before.map_values(|c: ChildRecord| child_view(c));
                assert(mv.len() == before.len());
                assert(mv.len() == n - i);
            }
            let child = self.children.remove(0);
            proof {
                let mv = before.map_values(|c: ChildRecord| child_view(c));
                assert(child == before[0]);
                assert(mv[0] == child_view(before[0]));
                assert(cs.skip(i as int)[0] == cs[i as int]);
                assert(child_view(child) == cs[i as int]);
                let after = self.children@.map_values(|c: ChildRecord| child_view(c));
                assert forall|j: int| 0 <= j < self.children@.len() implies #[trigger] after[j] == cs.skip(i + 1)[j] by {
                    assert(self.children@[j] == before[j + 1]);
                    assert(mv[j + 1] == child_view(before[j + 1]));
                    assert(cs.skip(i as int)[j + 1] == cs[i + 1 + j]);
                }
                assert(after =~= cs.skip(i + 1));
            }
            let ghost mut count: Result<usize, Status> = Ok(0);
            let ghost mut removed: Result<(), Status> = Ok(());
            if child.name != wanted {
                kept.push(child);
            } else if child.open {
                status = Status::InUse;
                kept.push(child);
            } else {
                let mut stays = false;
                if child.is_directory {
                    match self.directory.count_children(name) {
                        Ok(k) => {
                            proof {
                                count = Ok(k);
                            }
                            if k != 0 {
                                status = Status::NotEmpty;
                                stays = true;
                            }
                        },
                        Err(e) => {
                            proof {
                                count = Err(e);
                            }
                            status = e;
                            stays = true;
                        },
                    }
                }
                if stays {
                    kept.push(child);
                } else {
                    match self.directory.remove(name) {
                        Ok(()) => {
                            status = Status::Success;
                        },
                        Err(e) => {
                            proof {
                                removed = Err(e);
                            }
                            status = e;
                        },
                    }
                }
            }
            proof {
                let prev_answers = answers;
                answers = answers.push((count, removed));
                assert forall|k: int| 0 <= k <= i implies removal(cs, name@, answers, k) == removal(
                    cs,
                    name@,
                    prev_answers,
                    k,
                ) && removal_requests(cs, name@, answers, k) == removal_requests(cs, name@, prev_answers, k) by {
                    lemma_removal_prefix(cs, name@, prev_answers, answers, k);
                }
            }
            i = i + 1;
        }
        self.children = kept;
        proof {
            assert(cs.skip(i as int).len() == 0);
            assert(i == n);
            if forall|j: int| 0 <= j < n ==> (#[trigger] cs[j]).0 != name@ {
                lemma_removal_missing(cs, name@, answers, n);
                assert(cs.take(n) =~= cs);
            }
            if (exists|j: int| 0 <= j < n && (#[trigger] cs[j]).0 == name@) && (forall|j: int|
                0 <= j < n && (#[trigger] cs[j]).0 == name@ ==> cs[j].3) {
                lemma_removal_in_use(cs, name@, answers, n);
                assert(cs.take(n) =~= cs);
            }
        }
        if status == Status::Success {
            Ok(())
        } else {
            Err(status)
        }
    }
}

/// Answers given for later children do not change what the earlier ones come to.
proof fn lemma_removal_prefix(
    children: Seq<(Seq<char>, bool, usize, bool)>,
    name: Seq<char>,
    a: Seq<(Result<usize, Status>, Result<(), Status>)>,
    b: Seq<(Result<usize, Status>, Result<(), Status>)>,
    k: int,
)
    requires
        0 <= k <= a.len() <= b.len(),
        forall|j: int| 0 <= j < a.len() ==> a[j] == b[j],
    ensures
        removal(children, name, b, k) == removal(children, name, a, k),
        removal_requests(children, name, b, k) == removal_requests(children, name, a, k),
    decreases k,
{
    if k > 0 {
        lemma_removal_prefix(children, name, a, b, k - 1);
    }
}


/// A directory kept in memory: its entries (name, whether a sub-directory, and for a
/// sub-directory how many children it holds), a status that every change to it fails with
/// when one is set (a volume that refuses writes), and the record of the requests it
/// received.
pub struct MemoryDirectory {
    entries: Vec<(String, bool, usize)>,
    failure: Option<Status>,
    log: Vec<(u8, String, bool)>,
}

impl MemoryDirectory {
    /// A directory holding `entries`, whose changes fail with `failure` when it is set, and
    /// that has received no request.
    pub fn new(entries: Vec<(String, bool, usize)>, failure: Option<Status>) -> (r: Self)
        ensures
            r.requests() == Seq::<(u8, Seq<char>, bool)>::empty(),
    {
        let r = MemoryDirectory { entries, failure, log: Vec::new() };
        proof {
            assert(r.requests() =~= Seq::<(u8, Seq<char>, bool)>::empty());
        }
        r
    }

    /// The requests received, oldest first, with their names.
    pub fn request_log(&self) -> (r: &Vec<(u8, String, bool)>)
        ensures
            r@.map_values(|e: (u8, String, bool)| (e.0, e.1@, e.2)) == self.requests(),
    {
        &self.log
    }

    /// The entries: name, whether a sub-directory, and its number of children.
    pub closed spec fn spec_entries(&self) -> Seq<(Seq<char>, bool, usize)> {
        self.entries@.map_values(|e: (String, bool, usize)| (e.0@, e.1, e.2))
    }

    /// The number of entries.
    pub fn entry_count(&self) -> (r: usize)
        ensures
            r == self.spec_entries().len(),
    {
        self.entries.len()
    }

    fn record(&mut self, kind: u8, name: &str, directory: bool)
        ensures
            final(self).requests() == old(self).requests().push(driver_request(kind, name@, directory)),
            final(self).entries == old(self).entries,
            final(self).failure == old(self).failure,
    {
        let ghost before = self.log@;
        self.log.push((kind, name.to_owned(), directory));
        proof {
            assert(self.log@.map_values(|e: (u8, String, bool)| (e.0, e.1@, e.2)) =~= before.map_values(
                |e: (u8, String, bool)| (e.0, e.1@, e.2),
            ).push(driver_request(kind, name@, directory)));
        }
    }

    fn find(&self, name: &str) -> (r: Option<usize>)
        ensures
            r matches Some(j) ==> j < self.entries@.len(),
    {
        let wanted = name.to_owned();
        let mut j: usize = 0;
        while j < self.entries.len()
            invariant
                j <= self.entries@.len(),
            decreases self.entries@.len() - j,
        {
            if self.entries[j].0 == wanted {
                return Some(j);
            }
            j = j + 1;
        }
        None
    }
}

impl DirectoryDriver for MemoryDirectory {
    closed spec fn requests(&self) -> Seq<(u8, Seq<char>, bool)> {
        self.log@.map_values(|e: (u8, String, bool)| (e.0, e.1@, e.2))
    }

    fn count_children(&mut self, name: &str) -> (r: Result<usize, Status>) {
        self.record(0, name, true);
        match self.find(name) {
            Some(j) => {
                if self.entries[j].1 {
                    Ok(self.entries[j].2)
                } else {
                    Err(Status::NotDirectory)
                }
            },
            None => Err(Status::NoEntry),
        }
    }

    fn remove(&mut self, name: &str) -> (r: Result<(), Status>) {
        self.record(1, name, false);
        if let Some(e) = self.failure {
            return Err(e);
        }
        match self.find(name) {
            Some(j) => {
                let ghost log = self.requests();
                self.entries.remove(j);
                proof {
                    assert(self.requests() == log);
                }
                Ok(())
            },
            None => Err(Status::NoEntry),
        }
    }

    fn make_file(&mut self, name: &str) -> (r: Result<(), Status>) {
        self.record(2, name, false);
        self.make(name, false)
    }

    fn make_directory(&mut self, name: &str) -> (r: Result<(), Status>) {
        self.record(2, name, true);
        self.make(name, true)
    }

    fn open_child(&mut self, name: &str, directory: bool) -> (r: Result<(), Status>) {
        self.record(3, name, directory);
        match self.find(name) {
            Some(j) => {
                if self.entries[j].1 == directory {
                    Ok(())
                } else if directory {
                    Err(Status::NotDirectory)
                } else {
                    Err(Status::IsDirectory)
                }
            },
            None => Err(Status::NoEntry),
        }
    }
}

impl MemoryDirectory {
    fn make(&mut self, name: &str, directory: bool) -> (r: Result<(), Status>)
        ensures
            final(self).requests() == old(self).requests(),
    {
        if let Some(e) = self.failure {
            return Err(e);
        }
        if let Some(_) = self.find(name) {
            return Err(Status::Exists);
        }
        let ghost log = self.requests();
        self.entries.push((name.to_owned(), directory, 0));
        proof {
            assert(self.requests() == log);
        }
        Ok(())
    }
}
} // verus!

//! Turning a list of names into the sources to read from.
use vstd::prelude::*;

verus! {

/// A byte source.
#[derive(Debug, Eq, PartialEq, Clone)]
pub enum Source {
    /// Read from the process's standard input.
    Stdin,
    /// Read from the named file.
    File(String),
}

impl Source {
    /// A copy of this source.
    pub fn copy(&self) -> (r: Source)
        ensures
            r == *self,
    {
        match self {
            Source::Stdin => Source::Stdin,
            Source::File(path) => Source::File(path.clone()),
        }
    }
}

/// What a handle for `s` is opened on: the file's path, or `None` for
/// standard input.
pub open spec fn origin_of(s: Source) -> Option<Seq<char>> {
    match s {
        Source::Stdin => None,
        Source::File(path) => Some(path@),
    }
}

/// The name that stands for standard input.
pub open spec fn dash() -> Seq<char> {
    seq!['-']
}

/// Whether `s` is the source that `name` stands for: standard input for `-`,
/// else the file of that name.
pub open spec fn stands_for(s: Source, name: Seq<char>) -> bool {
    if name == dash() {
        s is Stdin
    } else {
        s is File && s->File_0@ == name
    }
}

/// Whether `r` is what a list of names resolves to: standard input alone for an
/// empty list, else one source for each name, in order.
pub open spec fn resolves_to(names: Seq<&str>, r: Seq<Source>) -> bool {
    if names.len() == 0 {
        r.len() == 1 && r[0] is Stdin
    } else {
        &&& r.len() == names.len()
        &&& forall|i: int| 0 <= i < names.len() ==> stands_for(#[trigger] r[i], names[i]@)
    }
}

/// The sources named by `filenames`: `-` stands for standard input, any other
/// name for the file of that name, and an empty list for standard input alone.
pub fn make_source_vec(filenames: &[&str]) -> (r: Vec<Source>)
    ensures
        resolves_to(filenames@, r@),
{
    if filenames.len() == 0 {
        return vec![Source::Stdin];
    }
    let dash_name: String = "-".to_owned();
    proof {
        reveal_strlit("-");
    }
    let mut sources: Vec<Source> = Vec::with_capacity(filenames.len());
    let mut i: usize = 0;
    while i < filenames.len()
        invariant
            i <= filenames@.len(),
            dash_name@ == dash(),
            sources@.len() == i,
            forall|j: int| 0 <= j < i ==> #[trigger] stands_for(sources@[j], filenames@[j]@),
        decreases filenames@.len() - i,
    {
        let name: String = filenames[i].to_owned();
        if name == dash_name {
            sources.push(Source::Stdin);
        } else {
            sources.push(Source::File(name));
        }
        i = i + 1;
    }
    sources
}

/// An empty list and the list `["-"]` both resolve to standard input alone; any
/// other list resolves to one source per name, and a source is standard input
/// exactly where its name is `-`.
pub proof fn lemma_resolve_shape(names: Seq<&str>, r: Seq<Source>)
    requires
        resolves_to(names, r),
    ensures
        names.len() == 0 ==> r == seq![Source::Stdin],
        names.len() == 1 && names[0]@ == dash() ==> r == seq![Source::Stdin],
        names.len() > 0 ==> r.len() == names.len(),
        names.len() > 0 ==> forall|i: int|
            0 <= i < names.len() ==> (#[trigger] r[i] is Stdin <==> names[i]@ == dash()),
{
    if names.len() == 0 {
        assert(r =~= seq![Source::Stdin]);
    } else {
        assert forall|i: int| 0 <= i < names.len() implies (#[trigger] r[i] is Stdin <==> names[i]@
            == dash()) by {
            assert(stands_for(r[i], names[i]@));
        }
        if names.len() == 1 && names[0]@ == dash() {
            assert(stands_for(r[0], names[0]@));
            assert(r =~= seq![Source::Stdin]);
        }
    }
}

} // verus!

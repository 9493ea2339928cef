use std::rc::Rc;
use vstd::prelude::*;
use vstd::string::StringExecFns;
use crate::lambda::{find_named, registry_view, share, store_shared, NamedTerm};
use crate::term::{registry_find, Term};
use crate::text::Name;

verus! {

/// The named terms that one level of a context adds.
pub type ContextFrame = Vec<Rc<NamedTerm>>;

/// The term that `entries` holds under `name`: that of the last entry of that
/// name.
pub open spec fn last_find(entries: Seq<(Name, Term)>, name: Name) -> Option<Term>
    decreases entries.len(),
{
    if entries.len() == 0 {
        None
    } else if entries.last().0 == name {
        Some(entries.last().1)
    } else {
        last_find(entries.drop_last(), name)
    }
}

/// The entries of the first `n` frames, one frame after the other.
pub open spec fn flatten(frames: Seq<ContextFrame>, n: nat) -> Seq<(Name, Term)>
    decreases n,
{
    if n == 0 || n > frames.len() {
        Seq::empty()
    } else {
        flatten(frames, (n - 1) as nat) + registry_view(frames[n - 1]@)
    }
}

/// A stack of frames of named terms, with the terms that are in force: under
/// each name the one that was entered last.
pub struct ContextTracker {
    current_terms: Vec<Rc<NamedTerm>>,
    frames: Vec<ContextFrame>,
}

impl ContextTracker {
    /// The frames, the lowest first.
    pub closed spec fn frames_view(&self) -> Seq<ContextFrame> {
        self.frames@
    }

    /// Every entry of every frame, in the order in which they were entered.
    pub open spec fn entries(&self) -> Seq<(Name, Term)> {
        flatten(self.frames_view(), self.frames_view().len())
    }

    /// The invariant: the terms in force are those that the frames give.
    pub closed spec fn wf(&self) -> bool {
        forall|name: Name| #[trigger]
            registry_find(registry_view(self.current_terms@), name) == last_find(
                self.entries(),
                name,
            )
    }

    /// A tracker without frames.
    pub fn new() -> (r: Self)
        ensures
            r.wf(),
            r.frames_view().len() == 0,
    {
        let r = ContextTracker { current_terms: Vec::new(), frames: Vec::new() };
        assert(registry_view(r.current_terms@) =~= Seq::empty());
        r
    }

    /// The term in force under `name`.
    pub fn get(&self, name: &str) -> (r: Option<Rc<NamedTerm>>)
        requires
            self.wf(),
        ensures
            match r {
                Some(named) => (*named)@.0 == name@ && last_find(self.entries(), name@) == Some(
                    (*named)@.1,
                ),
                None => last_find(self.entries(), name@) is None,
            },
    {
        let name = String::from_str(name);
        assert(registry_find(registry_view(self.current_terms@), name@) == last_find(
            self.entries(),
            name@,
        ));
        find_named(&self.current_terms, &name)
    }

    /// Puts `frame` on top of the frames.
    pub fn push_frame(&mut self, frame: ContextFrame)
        ensures
            final(self).wf(),
            final(self).frames_view() == old(self).frames_view().push(frame),
    {
        self.frames.push(frame);
        self.rebuild_current_terms();
    }

    /// Takes the top frame away, if there is one.
    pub fn pop_frame(&mut self)
        ensures
            final(self).wf(),
            final(self).frames_view() == if old(self).frames_view().len() > 0 {
                old(self).frames_view().drop_last()
            } else {
                old(self).frames_view()
            },
    {
        self.frames.pop();
        self.rebuild_current_terms();
    }

    /// Works out the terms in force from the frames.
    fn rebuild_current_terms(&mut self)
        ensures
            final(self).wf(),
            final(self).frames_view() == old(self).frames_view(),
    {
        let mut current: Vec<Rc<NamedTerm>> = Vec::new();
        let ghost frames = self.frames@;
        let ghost mut seen: Seq<(Name, Term)> = Seq::empty();
        assert(registry_view(current@) =~= Seq::empty());
        let mut i: usize = 0;
        while i < self.frames.len()
            invariant
                i <= self.frames.len(),
                self.frames@ == frames,
                seen == flatten(frames, i as nat),
                forall|name: Name| #[trigger]
                    registry_find(registry_view(current@), name) == last_find(seen, name),
            decreases self.frames.len() - i,
        {
            let ghost base = seen;
            let mut j: usize = 0;
            assert(base + registry_view(frames[i as int]@).subrange(0, 0) =~= base);
            while j < self.frames[i].len()
                invariant
                    i < self.frames.len(),
                    j <= self.frames[i as int].len(),
                    self.frames@ == frames,
                    seen == base + registry_view(frames[i as int]@).subrange(0, j as int),
                    forall|name: Name| #[trigger]
                        registry_find(registry_view(current@), name) == last_find(seen, name),
                decreases self.frames[i as int].len() - j,
            {
                let named = share(&self.frames[i][j]);
                let ghost entry = (*named)@;
                let ghost before = registry_view(current@);
                store_shared(&mut current, named);
                proof {
                    let more = seen.push(entry);
                    assert(more.drop_last() =~= seen);
                    assert(registry_view(frames[i as int]@)[j as int] == entry);
                    assert(more =~= base + registry_view(frames[i as int]@).subrange(0, j + 1));
                    assert forall|name: Name| #[trigger]
                        registry_find(registry_view(current@), name) == last_find(more, name) by {
                        assert(registry_find(before, name) == last_find(seen, name));
                    }
                    seen = more;
                }
                j += 1;
            }
            proof {
                assert(registry_view(frames[i as int]@).subrange(
                    0,
                    frames[i as int]@.len() as int,
                ) =~= registry_view(frames[i as int]@));
            }
            i += 1;
        }
        self.current_terms = current;
    }
}

} // verus!

//! Terms: a head symbol name applied to a list of argument terms. This is
//! the data model behind the typed expression wrappers: what the logic
//! reads from a term is its head name and its arguments.

use vstd::prelude::*;

verus! {

/// The abstract value of a term: the head name and the argument trees.
pub struct TermView {
    pub head: Seq<char>,
    pub args: Seq<TermView>,
}

/// A term: a head symbol name applied to argument terms.
pub struct ATerm {
    function: String,
    arguments: Vec<ATerm>,
}

/// The abstract value of a term.
pub closed spec fn term_view(t: ATerm) -> TermView
    decreases t,
{
    TermView { head: t.function@, args: term_views(t.arguments@) }
}

/// The abstract values of a sequence of terms, elementwise.
pub closed spec fn term_views(ts: Seq<ATerm>) -> Seq<TermView>
    decreases ts,
{
    if ts.len() == 0 {
        Seq::empty()
    } else {
        term_views(ts.drop_last()).push(term_view(ts.last()))
    }
}

/// `term_views` is the elementwise abstraction.
pub proof fn lemma_term_views(ts: Seq<ATerm>)
    ensures
        term_views(ts).len() == ts.len(),
        forall|i: int| 0 <= i < ts.len() ==> term_views(ts)[i] == term_view(#[trigger] ts[i]),
    decreases ts.len(),
{
    if ts.len() > 0 {
        lemma_term_views(ts.drop_last());
        assert(forall|i: int|
            0 <= i < ts.len() - 1 ==> (#[trigger] ts.drop_last()[i]) == ts[i]);
        assert(ts.last() == ts[ts.len() - 1]);
        assert forall|i: int| 0 <= i < ts.len() implies term_views(ts)[i] == term_view(
            #[trigger] ts[i],
        ) by {
            if i < ts.len() - 1 {
                assert(term_views(ts)[i] == term_views(ts.drop_last())[i]);
                assert(term_views(ts.drop_last())[i] == term_view(ts.drop_last()[i]));
            } else {
                assert(term_views(ts)[i] == term_view(ts.last()));
            }
        }
    }
}

impl View for ATerm {
    type V = TermView;

    closed spec fn view(&self) -> TermView {
        term_view(*self)
    }
}

impl ATerm {
    /// Creates a new term from a head symbol name and arguments.
    pub fn new(function: String, arguments: Vec<ATerm>) -> (r: Self)
        ensures
            r@.head == function@,
            r@.args.len() == arguments@.len(),
            forall|i: int|
                0 <= i < arguments@.len() ==> r@.args[i] == (#[trigger] arguments@[i])@,
    {
        proof {
            lemma_term_views(arguments@);
        }
        ATerm { function, arguments }
    }

    /// The name of the head symbol.
    pub fn function(&self) -> (r: &str)
        ensures
            r@ == self@.head,
    {
        self.function.as_str()
    }

    /// The number of arguments.
    pub fn arity(&self) -> (r: usize)
        ensures
            r == self@.args.len(),
    {
        proof {
            lemma_term_views(self.arguments@);
        }
        self.arguments.len()
    }

    /// The `i`-th argument.
    pub fn arg(&self, i: usize) -> (r: &ATerm)
        requires
            i < self@.args.len(),
        ensures
            r@ == self@.args[i as int],
    {
        proof {
            lemma_term_views(self.arguments@);
        }
        &self.arguments[i]
    }

    /// A copy of this term with the same abstract value.
    pub fn duplicate(&self) -> (r: ATerm)
        ensures
            r@ == self@,
        decreases *self,
    {
        proof {
            lemma_term_views(self.arguments@);
        }
        let n = self.arguments.len();
        let mut args: Vec<ATerm> = Vec::new();
        let mut i: usize = 0;
        while i < n
            invariant
                n == self.arguments@.len(),
                0 <= i <= n,
                args@.len() == i,
                forall|k: int| 0 <= k < i ==> (#[trigger] args@[k])@ == self.arguments@[k]@,
            decreases n - i,
        {
            args.push(self.arguments[i].duplicate());
            i = i + 1;
        }
        let r = ATerm { function: self.function.clone(), arguments: args };
        proof {
            lemma_term_views(args@);
            lemma_term_views(self.arguments@);
            assert forall|k: int| 0 <= k < n implies term_views(args@)[k] == term_views(
                self.arguments@,
            )[k] by {
                assert(term_views(args@)[k] == term_view(args@[k]));
                assert(term_views(self.arguments@)[k] == term_view(self.arguments@[k]));
            }
            assert(term_views(args@) =~= term_views(self.arguments@));
            assert(r@.head == self@.head);
            assert(r@.args == self@.args);
        }
        r
    }
}

/// A term that is a plain string: a head symbol without arguments.
pub struct ATermString {
    term: ATerm,
}

impl ATermString {
    /// The text of the string.
    pub closed spec fn spec_text(self) -> Seq<char> {
        self.term@.head
    }

    /// Creates a new `ATermString` from the given term.
    pub fn new(term: ATerm) -> (r: Self)
        requires
            term@.args.len() == 0,
        ensures
            r.spec_text() == term@.head,
    {
        Self { term }
    }

    /// The text of the string.
    pub fn text(&self) -> (r: &str)
        ensures
            r@ == self.spec_text(),
    {
        self.term.function()
    }
}

/// Represents a list of terms.
pub struct AtermList {
    elements: Vec<ATerm>,
}

impl AtermList {
    /// The abstract values of the list elements.
    pub closed spec fn spec_elements(self) -> Seq<TermView> {
        term_views(self.elements@)
    }

    /// Creates a new list holding the given terms.
    pub fn new(elements: Vec<ATerm>) -> (r: Self)
        ensures
            r.spec_elements().len() == elements@.len(),
            forall|i: int|
                0 <= i < elements@.len() ==> r.spec_elements()[i] == (
                #[trigger] elements@[i])@,
    {
        proof {
            lemma_term_views(elements@);
        }
        AtermList { elements }
    }

    /// Returns the length of the list.
    pub fn len(&self) -> (r: usize)
        ensures
            r == self.spec_elements().len(),
    {
        proof {
            lemma_term_views(self.elements@);
        }
        self.elements.len()
    }

    /// Returns whether the list is empty.
    pub fn is_empty(&self) -> (r: bool)
        ensures
            r == (self.spec_elements().len() == 0),
    {
        proof {
            lemma_term_views(self.elements@);
        }
        self.elements.len() == 0
    }

    /// Returns the head of the list.
    pub fn head(&self) -> (r: &ATerm)
        requires
            self.spec_elements().len() >= 1,
        ensures
            r@ == self.spec_elements()[0],
    {
        proof {
            lemma_term_views(self.elements@);
        }
        &self.elements[0]
    }

    /// Returns the tail of the list.
    pub fn tail(self) -> (r: AtermList)
        requires
            self.spec_elements().len() >= 1,
        ensures
            r.spec_elements() == self.spec_elements().drop_first(),
    {
        proof {
            lemma_term_views(self.elements@);
        }
        let ghost old_elements = self.elements@;
        let mut elements = self.elements;
        elements.remove(0);
        let r = AtermList { elements };
        proof {
            lemma_term_views(elements@);
            assert forall|k: int| 0 <= k < elements@.len() implies r.spec_elements()[k]
                == self.spec_elements().drop_first()[k] by {
                assert(r.spec_elements()[k] == term_view(elements@[k]));
                assert(self.spec_elements()[k + 1] == term_view(old_elements[k + 1]));
                assert(elements@[k] == old_elements[k + 1]);
            }
            assert(r.spec_elements() =~= self.spec_elements().drop_first());
        }
        r
    }

    /// Returns an iterator over the elements of the list.
    pub fn iter(self) -> (r: ATermListIter)
        ensures
            r.spec_remaining() == self.spec_elements(),
    {
        ATermListIter { list: self }
    }

    /// Converts the list into the vector of its terms.
    pub fn to_vec(self) -> (r: Vec<ATerm>)
        ensures
            r@.len() == self.spec_elements().len(),
            forall|i: int|
                0 <= i < r@.len() ==> (#[trigger] r@[i])@ == self.spec_elements()[i],
    {
        proof {
            lemma_term_views(self.elements@);
        }
        self.elements
    }
}

/// An iterator over a term list, yielding its terms front to back.
pub struct ATermListIter {
    list: AtermList,
}

impl ATermListIter {
    /// The values not yet yielded.
    pub closed spec fn spec_remaining(self) -> Seq<TermView> {
        self.list.spec_elements()
    }

    /// Yields the next term, if one remains.
    pub fn next(&mut self) -> (r: Option<ATerm>)
        ensures
            old(self).spec_remaining().len() == 0 ==> r is None && final(self).spec_remaining()
                == old(self).spec_remaining(),
            old(self).spec_remaining().len() > 0 ==> (r matches Some(t) && t@ == old(
                self,
            ).spec_remaining()[0]) && final(self).spec_remaining() == old(
                self,
            ).spec_remaining().drop_first(),
    {
        proof {
            lemma_term_views(self.list.elements@);
        }
        if self.list.elements.len() == 0 {
            proof {
                assert(self.list.spec_elements().len() == 0);
            }
            None
        } else {
            let ghost old_elements = self.list.elements@;
            let t = self.list.elements.remove(0);
            proof {
                lemma_term_views(self.list.elements@);
                lemma_term_views(old_elements);
                assert(t == old_elements[0]);
                assert forall|k: int|
                    0 <= k < self.list.elements@.len() implies self.list.spec_elements()[k]
                    == term_views(old_elements).drop_first()[k] by {
                    assert(self.list.spec_elements()[k] == term_view(self.list.elements@[k]));
                    assert(self.list.elements@[k] == old_elements[k + 1]);
                    assert(term_views(old_elements)[k + 1] == term_view(old_elements[k + 1]));
                }
                assert(self.list.spec_elements() =~= term_views(old_elements).drop_first());
            }
            Some(t)
        }
    }
}

} // verus!

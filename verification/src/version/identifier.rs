use vstd::prelude::*;
use vstd::string::StrSliceExecFns;
use crate::version::buf::all_ascii;

verus! {

/// A prerelease or build identifier text, one pointer wide: nothing for the empty text, a
/// boxed string otherwise. Texts of at most eight characters count as inline, longer ones as
/// on the heap.
#[derive(Debug)]
pub struct Identifier {
    data: Option<Box<String>>,
}

impl View for Identifier {
    type V = Seq<char>;

    closed spec fn view(&self) -> Seq<char> {
        match self.data {
            Some(s) => s@,
            None => Seq::<char>::empty(),
        }
    }
}

impl Identifier {
    /// A boxed text is never empty, and it is shorter than `u16::MAX`.
    #[verifier::type_invariant]
    spec fn inv(self) -> bool {
        match self.data {
            Some(s) => 0 < s@.len() < 0xFFFF,
            None => true,
        }
    }

    /// The empty identifier.
    pub fn empty() -> (r: Identifier)
        ensures
            r@ == Seq::<char>::empty(),
    {
        Identifier { data: None }
    }

    /// An identifier holding `string`, which must be ASCII and shorter than `u16::MAX`
    /// characters (a longer one is refused with a panic).
    pub fn new(string: &str) -> (r: Identifier)
        requires
            all_ascii(string@),
            string@.len() < 0xFFFF,
        ensures
            r@ == string@,
    {
        if string.is_empty() {
            Identifier { data: None }
        } else {
            Identifier { data: Some(Box::new(string.to_owned())) }
        }
    }

    /// Whether the text is empty.
    pub fn is_empty(&self) -> (r: bool)
        ensures
            r == (self@.len() == 0),
    {
        proof { use_type_invariant(self); }
        self.data.is_none()
    }

    /// Whether the text counts as inline: at most eight characters.
    pub fn is_inline(&self) -> (r: bool)
        ensures
            r == (self@.len() <= 8),
    {
        proof { use_type_invariant(self); }
        match &self.data {
            None => true,
            Some(s) => s.as_str().unicode_len() <= 8,
        }
    }

    /// Whether the text counts as on the heap: more than eight characters.
    pub fn is_heap(&self) -> (r: bool)
        ensures
            r == (self@.len() > 8),
    {
        !self.is_inline()
    }

    /// The text.
    pub fn as_str(&self) -> (r: &str)
        ensures
            r@ == self@,
    {
        match &self.data {
            None => {
                proof {
                    reveal_strlit("");
                    assert(""@ =~= Seq::<char>::empty());
                }
                ""
            },
            Some(s) => s.as_str(),
        }
    }
}

impl Clone for Identifier {
    fn clone(&self) -> (r: Self)
        ensures
            r@ == self@,
    {
        proof { use_type_invariant(self); }
        match &self.data {
            None => Identifier { data: None },
            Some(s) => Identifier { data: Some(Box::new(s.as_str().to_owned())) },
        }
    }
}

impl PartialEq for Identifier {
    fn eq(&self, rhs: &Self) -> (r: bool) {
        proof {
            use_type_invariant(self);
            use_type_invariant(rhs);
        }
        match (&self.data, &rhs.data) {
            (None, None) => true,
            (Some(a), Some(b)) => **a == **b,
            _ => false,
        }
    }
}

impl vstd::std_specs::cmp::PartialEqSpecImpl for Identifier {
    open spec fn obeys_eq_spec() -> bool {
        true
    }

    open spec fn eq_spec(&self, rhs: &Identifier) -> bool {
        self@ == rhs@
    }
}

} // verus!

use vstd::prelude::*;

use crate::strutil;

verus! {

/// The content hash of an object, in its canonical base-32 rendering.
///
/// The rendering is what every part of the storage layer reads: names are
/// formed from it and listings are parsed back into it, so the identifier
/// holds exactly that string. It is ASCII, non-empty, and contains neither
/// a path separator nor an extension separator.
#[derive(Debug)]
pub struct ObjectId {
    s: String,
}

impl View for ObjectId {
    type V = Seq<char>;

    closed spec fn view(&self) -> Seq<char> {
        self.s@
    }
}

/// What a character sequence must satisfy to be an object identifier.
pub open spec fn valid_id(s: Seq<char>) -> bool {
    &&& s.len() > 0
    &&& vstd::utf8::is_ascii_chars(s)
    &&& forall|i: int| 0 <= i < s.len() ==> s[i] != '.' && s[i] != '/'
}

impl ObjectId {
    pub open spec fn wf(&self) -> bool {
        valid_id(self@)
    }

    /// Accept a rendering as an identifier exactly when it is non-empty
    /// ASCII without `.` or `/`.
    pub fn parse(s: &str) -> (r: Option<ObjectId>)
        ensures
            match r {
                Some(id) => id@ == s@ && valid_id(s@),
                None => !valid_id(s@),
            },
    {
        if !s.is_ascii() {
            return None;
        }
        let n = s.unicode_len();
        if n == 0 {
            return None;
        }
        let mut i: usize = 0;
        while i < n
            invariant
                n == s@.len(),
                i <= n,
                forall|j: int| 0 <= j < i ==> s@[j] != '.' && s@[j] != '/',
            decreases n - i,
        {
            let c = s.get_char(i);
            if c == '.' || c == '/' {
                return None;
            }
            i += 1;
        }
        Some(ObjectId { s: s.to_owned() })
    }

    /// Take a rendering already known to be a valid identifier.
    pub fn from_valid(s: &str) -> (r: ObjectId)
        requires
            valid_id(s@),
        ensures
            r@ == s@,
            r.wf(),
    {
        ObjectId { s: s.to_owned() }
    }

    /// The canonical rendering.
    pub fn to_string(&self) -> (r: String)
        ensures
            r@ == self@,
    {
        self.s.clone()
    }

    /// The canonical rendering, borrowed.
    pub fn as_str(&self) -> (r: &str)
        ensures
            r@ == self@,
    {
        self.s.as_str()
    }

    pub fn clone_id(&self) -> (r: ObjectId)
        ensures
            r@ == self@,
            r.wf() == self.wf(),
    {
        ObjectId { s: self.s.clone() }
    }

    pub fn eq_id(&self, other: &ObjectId) -> (r: bool)
        ensures
            r == (self@ == other@),
    {
        strutil::str_eq(self.s.as_str(), other.s.as_str())
    }
}

impl Clone for ObjectId {
    fn clone(&self) -> (r: Self)
        ensures
            r@ == self@,
            r.wf() == self.wf(),
    {
        self.clone_id()
    }
}

} // verus!

//! The reply handed back across the C interface: a payload and whether it
//! is a result or an error message.
use vstd::prelude::*;

verus! {

pub struct JsonCallback {
    pub data: String,
    pub ok: bool,
}

impl JsonCallback {
    pub fn new(data: String, ok: bool) -> (r: Self)
        ensures
            r.data@ == data@,
            r.ok == ok,
    {
        JsonCallback { data, ok }
    }

    /// The reply given when nothing was produced: empty and not ok.
    pub fn default() -> (r: Self)
        ensures
            r.data@ == Seq::<char>::empty(),
            !r.ok,
    {
        JsonCallback { data: String::new(), ok: false }
    }

    /// Makes this reply a success carrying `data`.
    pub fn ok(&mut self, data: String) -> (r: &mut Self)
        ensures
            r.data@ == data@,
            r.ok,
            *final(self) == *final(r),
    {
        self.data = data;
        self.ok = true;
        self
    }

    /// Makes this reply a failure carrying the message `data`.
    pub fn err(&mut self, data: String) -> (r: &mut Self)
        ensures
            r.data@ == data@,
            !r.ok,
            *final(self) == *final(r),
    {
        self.data = data;
        self.ok = false;
        self
    }
}

} // verus!

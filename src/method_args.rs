//! The argument cursor that a host reads call arguments through.
use vstd::prelude::*;
use crate::ast::args_model;

verus! {

/// The raw argument texts of one call, read one after another.
#[derive(Debug)]
pub struct MethodArgs<'a> {
    args: &'a Vec<String>,
    pos: usize,
}

impl<'a> MethodArgs<'a> {
    /// The arguments not read yet.
    pub closed spec fn remaining(&self) -> Seq<Seq<char>> {
        if self.pos <= self.args@.len() {
            args_model(self.args@).subrange(self.pos as int, self.args@.len() as int)
        } else {
            seq![]
        }
    }

    /// A cursor at the first of `args`.
    pub fn from(args: &'a Vec<String>) -> (r: Self)
        ensures
            r.remaining() == args_model(args@),
    {
        let r = MethodArgs { args, pos: 0 };
        assert(r.remaining() =~= args_model(args@));
        r
    }

    /// The next argument, or `None` when all have been read.
    pub fn next(&mut self) -> (r: Option<&'a str>)
        ensures
            old(self).remaining().len() > 0 ==> r is Some && r->0@ == old(self).remaining()[0]
                && final(self).remaining() == old(self).remaining().drop_first(),
            old(self).remaining().len() == 0 ==> r is None && final(self).remaining() == old(self).remaining(),
    {
        if self.pos < self.args.len() {
            let a = self.args[self.pos].as_str();
            self.pos = self.pos + 1;
            assert(final(self).remaining() =~= old(self).remaining().drop_first());
            Some(a)
        } else {
            None
        }
    }
}

} // verus!

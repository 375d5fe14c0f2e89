use vstd::prelude::*;
use crate::value::{Value, ValueView, views};

verus! {

/// Compiled code: instruction bytes, the source line of each byte, and the
/// constants that the instructions refer to by index. A chunk only grows.
#[derive(Debug)]
pub struct Chunk {
    pub(crate) instructions: Vec<u8>,
    pub(crate) constants: Vec<Value>,
    pub(crate) lines: Vec<i32>,
}

impl Chunk {
    /// The instruction bytes.
    pub closed spec fn code(&self) -> Seq<u8> {
        self.instructions@
    }

    /// The line tag of each instruction byte.
    pub closed spec fn line_tags(&self) -> Seq<i32> {
        self.lines@
    }

    /// The constant pool.
    pub closed spec fn pool(&self) -> Seq<ValueView> {
        views(self.constants@)
    }

    /// Every instruction byte has its line tag.
    pub closed spec fn wf(&self) -> bool {
        self.lines@.len() == self.instructions@.len()
    }

    /// In a well-formed chunk there are as many line tags as bytes.
    pub proof fn lemma_one_tag_per_byte(&self)
        requires
            self.wf(),
        ensures
            self.line_tags().len() == self.code().len(),
    {
    }

    /// The code and the pool are no longer than a machine can index.
    pub proof fn lemma_sizes_fit(&self)
        ensures
            self.code().len() <= usize::MAX,
            self.pool().len() <= usize::MAX,
    {
        assert(self.instructions.len() == self.instructions@.len());
        assert(self.constants.len() == self.constants@.len());
    }

    pub fn new() -> (chunk: Chunk)
        ensures
            chunk.wf(),
            chunk.code() == Seq::<u8>::empty(),
            chunk.line_tags() == Seq::<i32>::empty(),
            chunk.pool() == Seq::<ValueView>::empty(),
    {
        let chunk = Chunk { instructions: Vec::new(), constants: Vec::new(), lines: Vec::new() };
        assert(chunk.pool() =~= Seq::<ValueView>::empty());
        chunk
    }

    /// Appends one byte and the line it comes from.
    pub fn add_instruction(&mut self, bytes: &u8, line: i32)
        requires
            old(self).wf(),
        ensures
            final(self).wf(),
            final(self).code() == old(self).code().push(*bytes),
            final(self).line_tags() == old(self).line_tags().push(line),
            final(self).pool() == old(self).pool(),
    {
        self.instructions.push(*bytes);
        self.lines.push(line);
    }

    /// Appends a constant and returns its index: the number of constants
    /// that were there before it.
    pub fn add_constant(&mut self, constant: &Value) -> (index: usize)
        requires
            old(self).wf(),
        ensures
            final(self).wf(),
            index == old(self).pool().len(),
            final(self).pool() == old(self).pool().push(constant@),
            final(self).code() == old(self).code(),
            final(self).line_tags() == old(self).line_tags(),
    {
        self.constants.push(constant.duplicate());
        assert(self.pool() =~= old(self).pool().push(constant@));
        self.constants.len() - 1
    }

    /// The number of instruction bytes.
    pub fn len(&self) -> (n: usize)
        ensures
            n == self.code().len(),
    {
        self.instructions.len()
    }

    /// The number of constants.
    pub fn constant_count(&self) -> (n: usize)
        ensures
            n == self.pool().len(),
    {
        self.constants.len()
    }

    /// The instruction byte at an offset, if the offset is within the code.
    pub fn byte_at(&self, offset: usize) -> (r: Option<u8>)
        ensures
            r == (if offset < self.code().len() {
                Some(self.code()[offset as int])
            } else {
                None
            }),
    {
        if offset < self.instructions.len() {
            Some(self.instructions[offset])
        } else {
            None
        }
    }

    /// The line tag at an offset, if the offset is within the code.
    pub fn line_at(&self, offset: usize) -> (r: Option<i32>)
        ensures
            r == (if offset < self.line_tags().len() {
                Some(self.line_tags()[offset as int])
            } else {
                None
            }),
    {
        if offset < self.lines.len() {
            Some(self.lines[offset])
        } else {
            None
        }
    }

    /// The constant at an index, if the pool has one there.
    pub fn constant_at(&self, index: usize) -> (r: Option<Value>)
        ensures
            index < self.pool().len() ==> r.is_some() && r.unwrap()@ == self.pool()[index as int],
            index >= self.pool().len() ==> r.is_none(),
    {
        if index < self.constants.len() {
            Some(self.constants[index].duplicate())
        } else {
            None
        }
    }
}

} // verus!

//! What a document asks to be written: one write per selected code block.
use vstd::prelude::*;

use crate::code::{Code, CodeModel};
use crate::properties::{opt_bytes, ModeModel, TangleMode};
use crate::section::same_bytes;

verus! {

/// One write into a destination file: the block's contents framed by its
/// prefix and postfix, placed according to the mode.
#[derive(Clone, Copy, Debug, PartialEq)]
pub struct WriteOp<'a> {
    pub filename: &'a [u8],
    pub mode: TangleMode<'a>,
    pub prefix: Option<&'a [u8]>,
    pub contents: &'a [u8],
    pub postfix: Option<&'a [u8]>,
}

/// The mathematical value of a [`WriteOp`].
pub struct WriteModel {
    pub filename: Seq<u8>,
    pub mode: ModeModel,
    pub prefix: Option<Seq<u8>>,
    pub contents: Seq<u8>,
    pub postfix: Option<Seq<u8>>,
}

impl<'a> View for WriteOp<'a> {
    type V = WriteModel;

    open spec fn view(&self) -> WriteModel {
        WriteModel {
            filename: self.filename@,
            mode: self.mode@,
            prefix: opt_bytes(self.prefix),
            contents: self.contents@,
            postfix: opt_bytes(self.postfix),
        }
    }
}

/// Why a document cannot be tangled in strict mode.
#[derive(Clone, Copy, Debug, PartialEq, Eq)]
pub enum TangleError {
    /// A selected code block has a mode but no file name.
    MissingFilename,
    /// A selected code block has no mode.
    MissingMode,
}

/// What becomes of one block.
pub enum Decision {
    Skip,
    Write(WriteModel),
    Fail(TangleError),
}

/// What becomes of one block: blocks whose tag differs from the filter are
/// skipped; a block needs a mode and a file name to be written, and lacking
/// either is an error in strict mode and a skip otherwise.
pub open spec fn decide(c: CodeModel, tag: Option<Seq<u8>>, strict: bool) -> Decision {
    let p = c.effective;
    if tag is Some && p.tag != tag {
        Decision::Skip
    } else {
        match p.mode {
            None => if strict {
                Decision::Fail(TangleError::MissingMode)
            } else {
                Decision::Skip
            },
            Some(m) => match p.filename {
                None => if strict {
                    Decision::Fail(TangleError::MissingFilename)
                } else {
                    Decision::Skip
                },
                Some(f) => Decision::Write(
                    WriteModel {
                        filename: f,
                        mode: m,
                        prefix: p.prefix,
                        contents: c.part.contents,
                        postfix: p.postfix,
                    },
                ),
            },
        }
    }
}

/// The writes for a list of blocks, in order, or the first error.
pub open spec fn plan_of(blocks: Seq<CodeModel>, tag: Option<Seq<u8>>, strict: bool) -> Result<
    Seq<WriteModel>,
    TangleError,
>
    decreases blocks.len(),
{
    if blocks.len() == 0 {
        Ok(Seq::empty())
    } else {
        match plan_of(blocks.drop_last(), tag, strict) {
            Err(e) => Err(e),
            Ok(ops) => match decide(blocks.last(), tag, strict) {
                Decision::Skip => Ok(ops),
                Decision::Write(w) => Ok(ops.push(w)),
                Decision::Fail(e) => Err(e),
            },
        }
    }
}

pub proof fn lemma_plan_error_stays(
    blocks: Seq<CodeModel>,
    k: int,
    tag: Option<Seq<u8>>,
    strict: bool,
    e: TangleError,
)
    requires
        0 <= k <= blocks.len(),
        plan_of(blocks.subrange(0, k), tag, strict) == Err::<Seq<WriteModel>, TangleError>(e),
    ensures
        plan_of(blocks, tag, strict) == Err::<Seq<WriteModel>, TangleError>(e),
    decreases blocks.len() - k,
{
    if k < blocks.len() {
        assert(blocks.subrange(0, k + 1).drop_last() =~= blocks.subrange(0, k));
        lemma_plan_error_stays(blocks, k + 1, tag, strict, e);
    } else {
        assert(blocks.subrange(0, k) =~= blocks);
    }
}

pub open spec fn write_models(v: Seq<WriteOp>) -> Seq<WriteModel> {
    v.map_values(|w: WriteOp| w@)
}

/// Decides, for every code block in order, whether and how it is written.
/// `tag` selects only the blocks with that tag.
pub fn tangle_plan<'a>(blocks: &Vec<Code<'a>>, tag: Option<&[u8]>, strict: bool) -> (r: Result<
    Vec<WriteOp<'a>>,
    TangleError,
>)
    ensures
        match plan_of(blocks@.map_values(|c: Code| c@), opt_bytes(tag), strict) {
            Ok(ops) => r matches Ok(v) && write_models(v@) == ops,
            Err(e) => r == Err::<Vec<WriteOp<'a>>, TangleError>(e),
        },
{
    let ghost models = blocks@.map_values(|c: Code| c@);
    let mut ops: Vec<WriteOp<'a>> = Vec::new();
    let mut i: usize = 0;
    proof {
        assert(models.subrange(0, 0) =~= Seq::<CodeModel>::empty());
        assert(write_models(ops@) =~= Seq::<WriteModel>::empty());
    }
    while i < blocks.len()
        invariant
            i <= blocks@.len(),
            models == blocks@.map_values(|c: Code| c@),
            plan_of(models.subrange(0, i as int), opt_bytes(tag), strict) == Ok::<
                Seq<WriteModel>,
                TangleError,
            >(write_models(ops@)),
        decreases blocks@.len() - i,
    {
        let block = &blocks[i];
        let p = block.properties;
        proof {
            assert(models.subrange(0, i + 1).drop_last() =~= models.subrange(0, i as int));
            assert(models.subrange(0, i + 1).last() == block@);
        }
        let selected = match tag {
            None => true,
            Some(t) => match p.tag {
                None => false,
                Some(bt) => same_bytes(bt, t),
            },
        };
        if selected {
            match p.mode {
                None => {
                    if strict {
                        proof {
                            lemma_plan_error_stays(models, i + 1, opt_bytes(tag), strict, TangleError::MissingMode);
                        }
                        return Err(TangleError::MissingMode);
                    }
                },
                Some(mode) => match p.filename {
                    None => {
                        if strict {
                            proof {
                                lemma_plan_error_stays(models, i + 1, opt_bytes(tag), strict, TangleError::MissingFilename);
                            }
                            return Err(TangleError::MissingFilename);
                        }
                    },
                    Some(filename) => {
                        let op = WriteOp {
                            filename,
                            mode,
                            prefix: p.prefix,
                            contents: block.part.contents,
                            postfix: p.postfix,
                        };
                        let ghost before = write_models(ops@);
                        ops.push(op);
                        assert(write_models(ops@) =~= before.push(op@));
                    },
                },
            }
        }
        i = i + 1;
    }
    assert(models.subrange(0, blocks@.len() as int) =~= models);
    Ok(ops)
}

} // verus!

//! Provenance guards for rendering evidence.
//!
//! Evidence content is data by default. Only [`ProvenanceSource::UserPolicy`]
//! carries instruction authority: [`assert_not_instruction_authority`] keeps
//! authoritative content out of a data renderer, and [`RenderContext::checked`]
//! refuses to grant authority to any other content.
use vstd::prelude::*;

use crate::types::{EvidenceError, ProvenanceSet, ProvenanceSource};

verus! {

/// Opening marker of a rendered data block.
pub const DATA_MARKER: &'static str = "[evidence:data]";

/// Closing marker of a rendered data block.
pub const DATA_END_MARKER: &'static str = "[/evidence:data]";

/// Opening marker of a rendered instruction block.
pub const INSTRUCTION_MARKER: &'static str = "[evidence:instruction]";

/// Closing marker of a rendered instruction block.
pub const INSTRUCTION_END_MARKER: &'static str = "[/evidence:instruction]";

/// True when any fragment of the set is an instruction authority.
pub fn is_instruction_authority(set: &ProvenanceSet) -> (r: bool)
    ensures
        r == set.authoritative(),
{
    set.has_instruction_authority()
}

/// Guard of rendering paths that emit evidence as data: user policy is never
/// laundered through a data renderer.
pub fn assert_not_instruction_authority(set: &ProvenanceSet) -> (r: Result<(), EvidenceError>)
    ensures
        r is Ok <==> !set.authoritative(),
        r matches Err(e) ==> (e matches EvidenceError::Refused(m) && m@
            == "provenance carries UserPolicy instruction authority; refusing to render it as evidence data"@),
{
    if is_instruction_authority(set) {
        return Err(
            EvidenceError::Refused(
                "provenance carries UserPolicy instruction authority; refusing to render it as evidence data".to_owned(),
            ),
        );
    }
    Ok(())
}

/// Whether the surrounding rendering path may interpret a block as
/// instructions. Evidence defaults to data.
#[derive(Debug, Clone, Copy, PartialEq, Eq, Structural)]
pub struct RenderContext {
    pub instruction_authority: bool,
}

impl RenderContext {
    /// Blocks are tagged as data and can never instruct.
    pub fn data() -> (r: Self)
        ensures
            r == (RenderContext { instruction_authority: false }),
    {
        RenderContext { instruction_authority: false }
    }

    /// Blocks are tagged as instructions; [`RenderContext::checked`] refuses it
    /// for content that is not user policy.
    pub fn instructions() -> (r: Self)
        ensures
            r == (RenderContext { instruction_authority: true }),
    {
        RenderContext { instruction_authority: true }
    }

    pub fn with_instruction_authority(instruction_authority: bool) -> (r: Self)
        ensures
            r == (RenderContext { instruction_authority }),
    {
        RenderContext { instruction_authority }
    }

    /// The marker name this context stamps on rendered blocks.
    pub fn marker(&self) -> (r: &'static str)
        ensures
            r@ == (if self.instruction_authority {
                "instruction"@
            } else {
                "data"@
            }),
    {
        if self.instruction_authority {
            "instruction"
        } else {
            "data"
        }
    }

    /// The context may be applied to content of such provenance.
    pub open spec fn permits(&self, set: ProvenanceSet) -> bool {
        self.instruction_authority ==> set.authoritative()
    }

    /// Refuses a context that would grant instruction authority to content that
    /// is not user policy.
    pub fn checked(self, set: &ProvenanceSet) -> (r: Result<Self, EvidenceError>)
        ensures
            r is Ok <==> self.permits(*set),
            r matches Ok(c) ==> c == self,
            r matches Err(e) ==> (e matches EvidenceError::Refused(m) && m@
                == "non-UserPolicy provenance can never be rendered with instruction authority"@),
    {
        if self.instruction_authority && !is_instruction_authority(set) {
            return Err(
                EvidenceError::Refused(
                    "non-UserPolicy provenance can never be rendered with instruction authority".to_owned(),
                ),
            );
        }
        Ok(self)
    }

    /// The tagged block: the opening marker, the body verbatim and the closing
    /// marker, each on lines of their own.
    pub open spec fn tagged(&self, body: Seq<char>) -> Seq<char> {
        if self.instruction_authority {
            INSTRUCTION_MARKER@ + seq!['\n'] + body + seq!['\n'] + INSTRUCTION_END_MARKER@
        } else {
            DATA_MARKER@ + seq!['\n'] + body + seq!['\n'] + DATA_END_MARKER@
        }
    }

    /// Tags one rendered evidence block with this context's marker.
    pub fn tag(&self, body: &str) -> (r: String)
        ensures
            r@ == self.tagged(body@),
    {
        let mut out: String = String::new();
        if self.instruction_authority {
            out.append(INSTRUCTION_MARKER);
        } else {
            out.append(DATA_MARKER);
        }
        out.push('\n');
        out.append(body);
        out.push('\n');
        if self.instruction_authority {
            out.append(INSTRUCTION_END_MARKER);
        } else {
            out.append(DATA_END_MARKER);
        }
        proof {
            assert(out@ =~= self.tagged(body@));
        }
        out
    }
}

/// Content without a user-policy fragment is never tagged as instructions: the
/// only context that a check lets through for it stamps the data markers.
pub proof fn law_only_policy_instructs(
    context: RenderContext,
    set: ProvenanceSet,
    body: Seq<char>,
)
    requires
        context.permits(set),
        !set.entries@.contains(ProvenanceSource::UserPolicy),
    ensures
        context.tagged(body) == DATA_MARKER@ + seq!['\n'] + body + seq!['\n'] + DATA_END_MARKER@,
{
}

/// The sets that may be rendered as instructions are the authoritative ones,
/// which are the ones that the data guard refuses; a data context is permitted
/// for every set.
pub proof fn law_guards_are_complementary(set: ProvenanceSet)
    ensures
        (RenderContext { instruction_authority: true }).permits(set) <==> set.authoritative(),
        (RenderContext { instruction_authority: false }).permits(set),
{
}

/// A block is tagged at both ends with what it is, and holds its body verbatim
/// between them.
pub proof fn law_a_block_says_what_it_is(body: Seq<char>)
    ensures
        (RenderContext { instruction_authority: false }).tagged(body) == "[evidence:data]\n"@ + body
            + "\n[/evidence:data]"@,
        (RenderContext { instruction_authority: true }).tagged(body) == "[evidence:instruction]\n"@
            + body + "\n[/evidence:instruction]"@,
{
    reveal_strlit("[evidence:data]");
    reveal_strlit("[evidence:data]\n");
    reveal_strlit("[/evidence:data]");
    reveal_strlit("\n[/evidence:data]");
    reveal_strlit("[evidence:instruction]");
    reveal_strlit("[evidence:instruction]\n");
    reveal_strlit("[/evidence:instruction]");
    reveal_strlit("\n[/evidence:instruction]");
    assert("[evidence:data]\n"@ =~= "[evidence:data]"@ + seq!['\n']);
    assert("\n[/evidence:data]"@ =~= seq!['\n'] + "[/evidence:data]"@);
    assert("[evidence:instruction]\n"@ =~= "[evidence:instruction]"@ + seq!['\n']);
    assert("\n[/evidence:instruction]"@ =~= seq!['\n'] + "[/evidence:instruction]"@);
    assert((RenderContext { instruction_authority: false }).tagged(body) =~= "[evidence:data]\n"@
        + body + "\n[/evidence:data]"@);
    assert((RenderContext { instruction_authority: true }).tagged(body)
        =~= "[evidence:instruction]\n"@ + body + "\n[/evidence:instruction]"@);
}

/// A set instructs where one of its fragments comes from the user's policy, and
/// only then.
pub proof fn law_one_fragment_of_policy_instructs(set: ProvenanceSet, i: int)
    ensures
        0 <= i < set.entries@.len() && set.entries@[i] is UserPolicy ==> set.authoritative(),
        (forall|j: int| 0 <= j < set.entries@.len() ==> !((#[trigger] set.entries@[j]) is UserPolicy))
            ==> !set.authoritative(),
{
}

} // verus!

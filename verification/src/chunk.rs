//! The decoded data model: one streamed chat-completion chunk, the choices it
//! carries, and the terminal marker a choice may end with.

use vstd::prelude::*;

verus! {

/// The incremental message fragment carried by one choice of a chunk.
pub struct Delta {
    /// The text delta, when the wire carried one.
    pub content: Option<String>,
}

/// One choice entry of a chunk: an optional partial message fragment and an
/// optional terminal marker, both exactly as the wire carried them.
pub struct Choice {
    pub delta: Option<Delta>,
    /// The raw terminal marker string; absent when the wire carried none or
    /// carried a JSON null.
    pub finish_reason: Option<String>,
}

/// One decoded unit of streamed output: an ordered sequence of choices.
pub struct ChatChunk {
    pub choices: Vec<Choice>,
}

/// Mathematical image of a `Delta`.
pub ghost struct DeltaView {
    pub content: Option<Seq<char>>,
}

/// Mathematical image of a `Choice`.
pub ghost struct ChoiceView {
    pub delta: Option<DeltaView>,
    pub finish_reason: Option<Seq<char>>,
}

/// Mathematical image of a `ChatChunk`.
pub ghost struct ChunkView {
    pub choices: Seq<ChoiceView>,
}

impl View for Delta {
    type V = DeltaView;

    open spec fn view(&self) -> DeltaView {
        DeltaView {
            content: match self.content {
                Some(s) => Some(s@),
                None => None,
            },
        }
    }
}

impl View for Choice {
    type V = ChoiceView;

    open spec fn view(&self) -> ChoiceView {
        ChoiceView {
            delta: match self.delta {
                Some(d) => Some(d@),
                None => None,
            },
            finish_reason: match self.finish_reason {
                Some(s) => Some(s@),
                None => None,
            },
        }
    }
}

impl View for ChatChunk {
    type V = ChunkView;

    open spec fn view(&self) -> ChunkView {
        ChunkView { choices: self.choices@.map_values(|c: Choice| c@) }
    }
}

/// Why generation stopped for a choice, classified from the wire string.
#[derive(Clone, Copy, Debug, PartialEq, Eq, Structural)]
pub enum FinishReason {
    Stop,
    Length,
    ToolCalls,
    ContentFilter,
}

/// The classification a wire string maps to: each known marker string maps to
/// its variant, anything else to `None`.
pub open spec fn spec_finish_kind(s: Seq<char>) -> Option<FinishReason> {
    if s == "stop"@ {
        Some(FinishReason::Stop)
    } else if s == "length"@ {
        Some(FinishReason::Length)
    } else if s == "tool_calls"@ {
        Some(FinishReason::ToolCalls)
    } else if s == "content_filter"@ {
        Some(FinishReason::ContentFilter)
    } else {
        None
    }
}

impl Choice {
    /// The classified terminal marker of this choice: `None` when the wire
    /// carried no marker or an unknown string.
    pub fn finish_reason_kind(&self) -> (r: Option<FinishReason>)
        ensures
            r == (match self.finish_reason {
                Some(s) => spec_finish_kind(s@),
                None => None::<FinishReason>,
            }),
    {
        match &self.finish_reason {
            None => None,
            Some(s) => {
                if *s == "stop".to_owned() {
                    Some(FinishReason::Stop)
                } else if *s == "length".to_owned() {
                    Some(FinishReason::Length)
                } else if *s == "tool_calls".to_owned() {
                    Some(FinishReason::ToolCalls)
                } else if *s == "content_filter".to_owned() {
                    Some(FinishReason::ContentFilter)
                } else {
                    None
                }
            },
        }
    }
}

} // verus!

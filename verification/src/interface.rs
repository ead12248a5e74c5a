//! The records that flow through the cost tracker: the input as the encoder
//! holds it, the commands of a parsed stream, and the context map in force.
use vstd::prelude::*;

verus! {

/// How a literal context is derived from the two bytes before the literal.
#[derive(Clone, Copy, Debug, PartialEq, Eq, Structural)]
pub enum ContextType {
    CONTEXT_LSB6,
    CONTEXT_MSB6,
    CONTEXT_UTF8,
    CONTEXT_SIGNED,
}

/// The input of one encoding run, as the two parts of a ring buffer.
#[derive(Clone, Copy, Debug)]
pub struct InputPair<'a>(pub &'a [u8], pub &'a [u8]);

impl<'a> View for InputPair<'a> {
    type V = Seq<u8>;

    open spec fn view(&self) -> Seq<u8> {
        self.0@ + self.1@
    }
}

impl<'a> InputPair<'a> {
    /// Number of input bytes.
    pub fn len(&self) -> (len: usize)
        requires
            self@.len() <= usize::MAX,
        ensures
            len == self@.len(),
    {
        self.0.len() + self.1.len()
    }

    /// The input byte at `index`.
    pub fn get(&self, index: usize) -> (byte: u8)
        requires
            index < self@.len(),
        ensures
            byte == self@[index as int],
    {
        if index < self.0.len() {
            self.0[index]
        } else {
            self.1[index - self.0.len()]
        }
    }
}

/// The literal context map and, in a second array, the prediction mode, the
/// speeds and the distance context map.
#[derive(Debug)]
pub struct PredictionModeContextMap {
    pub literal_context_map: Vec<u8>,
    pub predmode_speed_and_distance_context_map: Vec<u8>,
}

/// Position of the literal prediction mode in the second array.
pub const PREDMODE_OFFSET: usize = 0;

/// The context type that the first byte of `modes` names, if the byte is there
/// and names one: 0 to 3 for the low six bits, the top six bits, UTF-8 and
/// signed.
pub open spec fn context_type_of(modes: Seq<u8>) -> Option<ContextType> {
    if modes.len() == 0 {
        None
    } else if modes[0] == 0 {
        Some(ContextType::CONTEXT_LSB6)
    } else if modes[0] == 1 {
        Some(ContextType::CONTEXT_MSB6)
    } else if modes[0] == 2 {
        Some(ContextType::CONTEXT_UTF8)
    } else if modes[0] == 3 {
        Some(ContextType::CONTEXT_SIGNED)
    } else {
        None
    }
}

impl PredictionModeContextMap {
    /// The context type that the prediction mode byte names, if any.
    pub open spec fn context_type(&self) -> Option<ContextType> {
        context_type_of(self.predmode_speed_and_distance_context_map@)
    }

    /// The context type that the prediction mode byte names.
    pub fn literal_prediction_mode(&self) -> (mode: Option<ContextType>)
        ensures
            mode == self.context_type(),
    {
        if self.predmode_speed_and_distance_context_map.len() == 0 {
            return None;
        }
        let mode: u8 = self.predmode_speed_and_distance_context_map[PREDMODE_OFFSET];
        if mode == 0 {
            Some(ContextType::CONTEXT_LSB6)
        } else if mode == 1 {
            Some(ContextType::CONTEXT_MSB6)
        } else if mode == 2 {
            Some(ContextType::CONTEXT_UTF8)
        } else if mode == 3 {
            Some(ContextType::CONTEXT_SIGNED)
        } else {
            None
        }
    }
}

/// A switch to another block type.
#[derive(Clone, Copy, Debug)]
pub struct BlockSwitch(pub u8);

/// A switch of the literal block type, with the stride that goes with it.
#[derive(Clone, Copy, Debug)]
pub struct LiteralBlockSwitch(pub BlockSwitch, pub u8);

impl LiteralBlockSwitch {
    /// The block type switched to.
    pub fn block_type(&self) -> (block_type: u8)
        ensures
            block_type == self.0.0,
    {
        self.0.0
    }
}

/// A copy of `num_bytes` bytes from `distance` bytes back.
#[derive(Clone, Copy, Debug)]
pub struct CopyCommand {
    pub distance: u32,
    pub num_bytes: u32,
}

/// A dictionary word, `final_size` bytes long once transformed.
#[derive(Clone, Copy, Debug)]
pub struct DictCommand {
    pub word_size: u8,
    pub transform: u8,
    pub final_size: u8,
    pub empty: u8,
    pub word_id: u32,
}

/// A run of literal bytes.
#[derive(Clone, Copy, Debug)]
pub struct LiteralCommand<'a> {
    pub data: &'a [u8],
}

/// One record of a parsed stream.
#[derive(Debug)]
pub enum Command<'a> {
    Copy(CopyCommand),
    Dict(DictCommand),
    Literal(LiteralCommand<'a>),
    BlockSwitchCommand(BlockSwitch),
    BlockSwitchLiteral(LiteralBlockSwitch),
    BlockSwitchDistance(BlockSwitch),
    PredictionMode(PredictionModeContextMap),
}

} // verus!

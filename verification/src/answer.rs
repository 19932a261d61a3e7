//! What a tool call gives back to its caller.
use vstd::prelude::*;
use vstd::string::*;

verus! {

/// One part of an answer.
#[derive(Debug)]
pub enum ToolContent {
    Text { text: String },
    Image { data: String, mime_type: String },
}

/// The answer to a tool call.
#[derive(Debug)]
pub struct CallToolResult {
    pub content: Vec<ToolContent>,
    pub is_error: bool,
}

/// One part of an answer, as plain text.
pub enum Part {
    Text(Seq<char>),
    Image(Seq<char>, Seq<char>),
}

/// An answer, as plain text.
#[verifier::ext_equal]
pub struct Answer {
    pub parts: Seq<Part>,
    pub is_error: bool,
}

impl View for ToolContent {
    type V = Part;

    open spec fn view(&self) -> Part {
        match *self {
            ToolContent::Text { text } => Part::Text(text@),
            ToolContent::Image { data, mime_type } => Part::Image(data@, mime_type@),
        }
    }
}

impl View for CallToolResult {
    type V = Answer;

    open spec fn view(&self) -> Answer {
        Answer {
            parts: self.content@.map_values(|c: ToolContent| c@),
            is_error: self.is_error,
        }
    }
}

/// The answer that only says what went wrong.
pub open spec fn error_answer(message: Seq<char>) -> Answer {
    Answer { parts: seq![Part::Text(message)], is_error: true }
}

/// The answer that only gives a text.
pub open spec fn text_answer(text: Seq<char>) -> Answer {
    Answer { parts: seq![Part::Text(text)], is_error: false }
}

/// The answer that only gives an image.
pub open spec fn image_answer(data: Seq<char>, mime_type: Seq<char>) -> Answer {
    Answer { parts: seq![Part::Image(data, mime_type)], is_error: false }
}

impl CallToolResult {
    /// An answer that says what went wrong.
    pub fn error(message: String) -> (r: CallToolResult)
        ensures
            r@ == error_answer(message@),
    {
        let ghost m = message@;
        let mut content: Vec<ToolContent> = Vec::new();
        content.push(ToolContent::Text { text: message });
        let r = CallToolResult { content, is_error: true };
        assert(r@ =~= error_answer(m));
        r
    }

    /// An answer that gives a text.
    pub fn text(text: String) -> (r: CallToolResult)
        ensures
            r@ == text_answer(text@),
    {
        let ghost t = text@;
        let mut content: Vec<ToolContent> = Vec::new();
        content.push(ToolContent::Text { text });
        let r = CallToolResult { content, is_error: false };
        assert(r@ =~= text_answer(t));
        r
    }

    /// An answer that gives an image, base64-encoded.
    pub fn image(data: String, mime_type: String) -> (r: CallToolResult)
        ensures
            r@ == image_answer(data@, mime_type@),
    {
        let ghost d = data@;
        let ghost m = mime_type@;
        let mut content: Vec<ToolContent> = Vec::new();
        content.push(ToolContent::Image { data, mime_type });
        let r = CallToolResult { content, is_error: false };
        assert(r@ =~= image_answer(d, m));
        r
    }

    /// Add a text behind what the answer already gives.
    pub fn push_text(&mut self, text: String)
        ensures
            final(self)@ == (Answer {
                parts: old(self)@.parts.push(Part::Text(text@)),
                is_error: old(self)@.is_error,
            }),
    {
        let ghost before = *self;
        let ghost t = text@;
        self.content.push(ToolContent::Text { text });
        assert(self@ =~= (Answer {
            parts: before@.parts.push(Part::Text(t)),
            is_error: before@.is_error,
        }));
    }
}

/// Why a tool call did not do its work: it answers with an error, or the call
/// itself fails.
#[derive(Debug)]
pub enum ToolFailure {
    Reported(CallToolResult),
    Raised(String),
}

/// Why a tool call did not do its work, as plain text.
pub enum Failure {
    Reported(Answer),
    Raised(Seq<char>),
}

impl View for ToolFailure {
    type V = Failure;

    open spec fn view(&self) -> Failure {
        match *self {
            ToolFailure::Reported(a) => Failure::Reported(a@),
            ToolFailure::Raised(m) => Failure::Raised(m@),
        }
    }
}

/// The answer says that something went wrong.
pub open spec fn reported(message: Seq<char>) -> Failure {
    Failure::Reported(error_answer(message))
}

/// A failure that is answered with this message.
pub fn report(message: String) -> (r: ToolFailure)
    ensures
        r@ == reported(message@),
{
    ToolFailure::Reported(CallToolResult::error(message))
}

/// Which state of the board answered a call.
#[derive(Debug, Clone, Copy, PartialEq, Eq, Structural)]
pub enum Source {
    /// The board that is open in KiCad.
    Ipc,
    /// The board file.
    File,
}

impl Source {
    /// The tag that an answer carries.
    pub open spec fn text(self) -> Seq<char> {
        match self {
            Source::Ipc => "ipc"@,
            Source::File => "file"@,
        }
    }

    /// The tag that an answer carries.
    pub fn tag(self) -> (r: &'static str)
        ensures
            r@ == self.text(),
    {
        match self {
            Source::Ipc => "ipc",
            Source::File => "file",
        }
    }
}

} // verus!

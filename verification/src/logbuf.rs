//! The report buffer: the crawl and the downloads accumulate their summary
//! text here, and the shell flushes it to wherever the report goes. The
//! buffer is an explicit value threaded through the run, not ambient state.

use vstd::prelude::*;

verus! {

/// The accumulated report text.
pub struct LogBuffer {
    pub content: String,
}

impl LogBuffer {
    /// An empty buffer.
    pub fn new() -> (r: Self)
        ensures
            r.content@.len() == 0,
    {
        LogBuffer { content: String::new() }
    }

    /// Appends one report fragment after a separating newline.
    pub fn add(&mut self, text: &str)
        ensures
            final(self).content@ == old(self).content@ + seq!['\n'] + text@,
    {
        proof {
            reveal_strlit("\n");
        }
        self.content.append("\n");
        self.content.append(text);
    }

    /// The accumulated text.
    pub fn text(&self) -> (r: String)
        ensures
            r@ == self.content@,
    {
        self.content.clone()
    }
}

/// Empties the report buffer.
pub fn wipe_log(log: &mut LogBuffer)
    ensures
        final(log).content@.len() == 0,
{
    log.content = String::new();
}

} // verus!

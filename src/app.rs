//! The application state that the interactive loop drives: the document,
//! what is displayed, the job slot, and the error panel.

use vstd::prelude::*;
use vstd::string::*;
use vstd::utf8::encode_utf8;
use crate::jq::{JqClient, JqJob, JqOutput};
use crate::scroll_text::{ScrollText, highlight, lines_view, plain_lines, text_lines};
use crate::tokens::tokenize;

verus! {

broadcast use vstd::utf8::group_utf8_lib;

/// A failure to show beside the last good output.
pub struct ErrorPanel {
    pub title: String,
    pub failure: String,
}

pub struct App {
    /// The document as it was read at startup.
    pub original: &'static str,
    /// The text currently displayed (the last successful output).
    pub filtered: String,
    pub scroll_text: ScrollText,
    pub jq_client: JqClient,
    /// True while the loop should keep running.
    pub is_running: bool,
    /// The last failure, if the last result was one.
    pub error: Option<ErrorPanel>,
    /// Set when a result arrived and the screen should be redrawn from scratch.
    pub clear_screen: bool,
}

impl App {
    /// The starting state: the document itself is displayed, unstyled.
    pub fn init(original: &'static str) -> (r: App)
        ensures
            r.original == original,
            r.filtered@ == original@,
            lines_view(r.scroll_text.lines@) == plain_lines(text_lines(original.spec_bytes())),
            r.scroll_text.line_offset == 0,
            r.jq_client.maybe_job is None,
            r.is_running,
            r.error is None,
            !r.clear_screen,
    {
        App {
            original,
            scroll_text: ScrollText::from_content(original),
            filtered: original.to_owned(),
            jq_client: JqClient::new(),
            is_running: true,
            error: None,
            clear_screen: false,
        }
    }

    pub fn filtered_content(&self) -> (r: &str)
        ensures
            r@ == self.filtered@,
    {
        self.filtered.as_str()
    }

    /// Displays `content`, highlighted, from the top.
    pub fn set_display_content(&mut self, content: String)
        ensures
            final(self).filtered@ == content@,
            lines_view(final(self).scroll_text.lines@) == highlight(encode_utf8(content@)),
            final(self).scroll_text.line_offset == 0,
            final(self).original == old(self).original,
            final(self).jq_client == old(self).jq_client,
            final(self).is_running == old(self).is_running,
            final(self).error == old(self).error,
            final(self).clear_screen == old(self).clear_screen,
    {
        let tokens = tokenize(content.as_str());
        let scroll_text = ScrollText::from_tokens(tokens.as_slice());
        self.filtered = content;
        self.scroll_text = scroll_text;
    }

    /// Applies a job result: a success replaces the displayed content and
    /// clears the error; a failure only sets the error panel, keeping the
    /// last good content on screen.
    pub fn apply_output(&mut self, output: JqOutput)
        ensures
            final(self).clear_screen,
            final(self).original == old(self).original,
            final(self).jq_client == old(self).jq_client,
            final(self).is_running == old(self).is_running,
            match output {
                JqOutput::Success { json_content } => {
                    &&& final(self).error is None
                    &&& final(self).filtered@ == json_content@
                    &&& lines_view(final(self).scroll_text.lines@) == highlight(
                        encode_utf8(json_content@),
                    )
                    &&& final(self).scroll_text.line_offset == 0
                },
                JqOutput::Failure { title, failure } => {
                    &&& final(self).error is Some
                    &&& final(self).error->0.title@ == title@
                    &&& final(self).error->0.failure@ == failure@
                    &&& final(self).filtered == old(self).filtered
                    &&& final(self).scroll_text == old(self).scroll_text
                },
            },
    {
        match output {
            JqOutput::Success { json_content } => {
                self.error = None;
                self.set_display_content(json_content);
            },
            JqOutput::Failure { title, failure } => {
                self.error = Some(ErrorPanel { title, failure });
            },
        }
        self.clear_screen = true;
    }

    /// Applies the tracked job's result if it has arrived; with no job
    /// tracked, nothing changes. A result, once applied, is not tracked
    /// any more.
    pub fn update(&mut self)
        ensures
            old(self).jq_client.maybe_job is None ==> *final(self) == *old(self),
            *final(self) == *old(self) || (final(self).jq_client.maybe_job is None
                && final(self).clear_screen),
            final(self).error is Some ==> final(self).filtered == old(self).filtered
                && final(self).scroll_text == old(self).scroll_text,
            final(self).error is None && *final(self) != *old(self) ==> lines_view(
                final(self).scroll_text.lines@,
            ) == highlight(encode_utf8(final(self).filtered@))
                && final(self).scroll_text.line_offset == 0,
            final(self).original == old(self).original,
            final(self).is_running == old(self).is_running,
    {
        if let Some(output) = self.jq_client.try_recv_output() {
            self.apply_output(output);
        }
    }

    /// Runs a new query: `job` becomes the tracked job and any earlier job
    /// is abandoned.
    pub fn submit_query(&mut self, job: JqJob)
        ensures
            final(self).jq_client.maybe_job == Some(job),
            final(self).original == old(self).original,
            final(self).filtered == old(self).filtered,
            final(self).scroll_text == old(self).scroll_text,
            final(self).error == old(self).error,
            final(self).is_running == old(self).is_running,
            final(self).clear_screen == old(self).clear_screen,
    {
        self.jq_client.submit_query(job);
    }

    pub fn scroll_up(&mut self)
        ensures
            final(self).scroll_text.line_offset == if old(self).scroll_text.line_offset == 0 {
                0
            } else {
                old(self).scroll_text.line_offset - 1
            },
            final(self).scroll_text.lines == old(self).scroll_text.lines,
            final(self).filtered == old(self).filtered,
            final(self).error == old(self).error,
            final(self).original == old(self).original,
            final(self).jq_client == old(self).jq_client,
            final(self).is_running == old(self).is_running,
            final(self).clear_screen == old(self).clear_screen,
    {
        self.scroll_text.scroll_up();
    }

    pub fn scroll_down(&mut self)
        ensures
            final(self).scroll_text.line_offset == if old(self).scroll_text.line_offset
                == usize::MAX {
                usize::MAX as int
            } else {
                old(self).scroll_text.line_offset + 1
            },
            final(self).scroll_text.lines == old(self).scroll_text.lines,
            final(self).filtered == old(self).filtered,
            final(self).error == old(self).error,
            final(self).original == old(self).original,
            final(self).jq_client == old(self).jq_client,
            final(self).is_running == old(self).is_running,
            final(self).clear_screen == old(self).clear_screen,
    {
        self.scroll_text.scroll_down();
    }
}

} // verus!

//! The data carried through the pipeline: one parsed to-do annotation.

use vstd::prelude::*;

verus! {

/// Mathematical image of a [`ToDoItem`]: every string field as a sequence of
/// characters, the context as a sequence of lines.
pub ghost struct ItemView {
    /// Ordering key, compared lexicographically.
    pub priority: Seq<char>,
    /// Free text following the closing delimiter.
    pub body: Seq<char>,
    /// Owner label.
    pub assignee: Seq<char>,
    /// Raw lines following the annotation line, in order.
    pub context: Seq<Seq<char>>,
    /// Path of the file the annotation was found in.
    pub file: Seq<char>,
    /// Zero-based line index of the annotation within its file.
    pub line: int,
}

/// One parsed to-do annotation.
#[derive(Debug, Clone, PartialEq)]
pub struct ToDoItem {
    /// The free-text priority. Can be something like 'min', 'max', '0', '1'
    /// or whatever; items are ordered by comparing it lexicographically.
    pub priority: String,
    /// Main body of the item: the free text on the annotation line after the
    /// closing delimiter.
    pub body: String,
    /// Who this todo belongs to.
    pub assignee: String,
    /// Some context for the item: the lines directly below its declaration,
    /// kept verbatim.
    pub context: Vec<String>,
    /// The (relative) file path where it has been collected.
    pub file: String,
    /// Zero-based line in the file at which the declaration stood.
    pub line: u32,
}

impl View for ToDoItem {
    type V = ItemView;

    open spec fn view(&self) -> ItemView {
        ItemView {
            priority: self.priority@,
            body: self.body@,
            assignee: self.assignee@,
            context: self.context@.map_values(|s: String| s@),
            file: self.file@,
            line: self.line as int,
        }
    }
}

/// The views of a sequence of items, in order.
pub open spec fn item_views(s: Seq<ToDoItem>) -> Seq<ItemView> {
    s.map_values(|t: ToDoItem| t@)
}

} // verus!

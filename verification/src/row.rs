use vstd::prelude::*;
use crate::strmap::StrMap;
use crate::strmap;

verus! {

/// One phrase of a language file: the file it belongs to (relative, without
/// the language directory), its index, and its text in each language.
pub struct CILangsToolsRow {
    pub file: String,
    pub index: String,
    pub translate: StrMap<String>,
}

/// What a row holds, as character sequences.
pub struct RowView {
    pub file: Seq<char>,
    pub index: Seq<char>,
    pub translate: Seq<(Seq<char>, Seq<char>)>,
}

impl View for CILangsToolsRow {
    type V = RowView;

    open spec fn view(&self) -> RowView {
        RowView { file: self.file@, index: self.index@, translate: self.translate@ }
    }
}

impl CILangsToolsRow {
    /// A row with the given fields.
    pub fn new(file: String, index: String, translate: StrMap<String>) -> (r: CILangsToolsRow)
        ensures
            r.file == file,
            r.index == index,
            r.translate == translate,
    {
        CILangsToolsRow { file: file, index: index, translate: translate }
    }

    /// The text in each language, as a map of character sequences.
    pub open spec fn texts(&self) -> Map<Seq<char>, Seq<char>> {
        strmap::sview(self.translate)
    }

    /// A copy of this row.
    pub fn copy(&self) -> (r: CILangsToolsRow)
        ensures
            r.file == self.file,
            r.index == self.index,
            r.translate.entries@ == self.translate.entries@,
            r@ == self@,
    {
        CILangsToolsRow {
            file: self.file.clone(),
            index: self.index.clone(),
            translate: strmap::copy_str_map(&self.translate),
        }
    }
}

} // verus!

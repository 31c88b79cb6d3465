//! The records that flow into and out of storage.

use vstd::prelude::*;

verus! {

/// One stored text line of a work.
pub struct DBLine {
    pub idx: i32,
    pub uid: String,
    pub l5: String,
    pub l4: String,
    pub l3: String,
    pub l2: String,
    pub l1: String,
    pub l0: String,
    pub mu: String,
    pub ac: String,
    pub st: String,
    pub hy: String,
    pub an: String,
}

/// One row of a language's morphology table: an observed form and the
/// headwords it may belong to (`upo`, parsed from `rpo`).
#[derive(Clone)]
pub struct DbMorphology {
    pub obs: String,
    pub xrf: String,
    pub pxr: String,
    pub rpo: String,
    pub upo: Vec<String>,
}

/// A headword with its corpus occurrence count.
pub struct WeightedHeadword {
    pub wd: String,
    pub ct: i32,
}

/// The views of a sequence of string slices.
pub open spec fn str_views(v: Seq<&str>) -> Seq<Seq<char>> {
    v.map_values(|s: &str| s@)
}

/// The JSON field names of a line record, in column order.
pub fn db_fields() -> (r: Vec<&'static str>)
    ensures
        str_views(r@) == seq![
            "WkUID"@, "TbIndex"@, "Lvl5Value"@, "Lvl4Value"@, "Lvl3Value"@, "Lvl2Value"@,
            "Lvl1Value"@, "Lvl0Value"@, "MarkedUp"@, "Accented"@, "Stripped"@, "Hypenated"@,
            "Annotations"@,
        ],
{
    let r = vec![
        "WkUID", "TbIndex", "Lvl5Value", "Lvl4Value", "Lvl3Value", "Lvl2Value", "Lvl1Value",
        "Lvl0Value", "MarkedUp", "Accented", "Stripped", "Hypenated", "Annotations",
    ];
    assert(str_views(r@) =~= seq![
        "WkUID"@, "TbIndex"@, "Lvl5Value"@, "Lvl4Value"@, "Lvl3Value"@, "Lvl2Value"@,
        "Lvl1Value"@, "Lvl0Value"@, "MarkedUp"@, "Accented"@, "Stripped"@, "Hypenated"@,
        "Annotations"@,
    ]);
    r
}

/// The suffixes of the progress keys that a search's status is polled from.
pub fn ws_fields() -> (r: Vec<&'static str>)
    ensures
        str_views(r@) == seq![
            "launchtime"@, "active"@, "statusmessage"@, "remaining"@, "poolofwork"@,
            "hitcount"@, "portnumber"@, "notes"@,
        ],
{
    let r = vec![
        "launchtime", "active", "statusmessage", "remaining", "poolofwork", "hitcount",
        "portnumber", "notes",
    ];
    assert(str_views(r@) =~= seq![
        "launchtime"@, "active"@, "statusmessage"@, "remaining"@, "poolofwork"@, "hitcount"@,
        "portnumber"@, "notes"@,
    ]);
    r
}

} // verus!

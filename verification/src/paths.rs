//! Well-known locations under the user's data directory, as plain strings.
//!
//! The data root lives under the home directory, an environment value that
//! nothing can pin down; each builder therefore promises the exact suffix
//! it appends below that root.

use vstd::prelude::*;

verus! {

/// Whether `s` ends in `suffix`.
pub open spec fn ends_with(s: Seq<char>, suffix: Seq<char>) -> bool {
    s.len() >= suffix.len() && s.subrange(s.len() - suffix.len(), s.len() as int) == suffix
}

/// Relies on dirs::home_dir: the user's home directory, rendered as a
/// string, or empty when the platform reports none. An environment value:
/// nothing further can be promised of it.
#[verifier::external_body]
fn home_dir_string() -> String {
    dirs::home_dir()
        .map(|p| p.to_string_lossy().into_owned())
        .unwrap_or_else(String::new)
}

/// A string always ends in what was just appended to it.
proof fn lemma_concat_ends_with(a: Seq<char>, b: Seq<char>)
    ensures
        ends_with(a + b, b),
{
    assert((a + b).subrange((a + b).len() - b.len(), (a + b).len() as int) =~= b);
}

/// Appending to both the string and its suffix keeps the suffix relation.
proof fn lemma_ends_with_extend(a: Seq<char>, b: Seq<char>, suffix: Seq<char>)
    requires
        ends_with(a, suffix),
    ensures
        ends_with(a + b, suffix + b),
{
    assert((a + b).subrange((a + b).len() - (suffix + b).len(), (a + b).len() as int) =~= suffix
        + b);
}

/// The root of this store's data, under the user's home directory.
pub fn get_share_path() -> (r: String)
    ensures
        ends_with(r@, "/.local/share/speki/"@),
{
    let home = home_dir_string();
    let r = home.concat("/.local/share/speki/");
    proof {
        lemma_concat_ends_with(home@, "/.local/share/speki/"@);
    }
    r
}

/// The directory holding every card collection.
pub fn get_cards_path() -> (r: String)
    ensures
        ends_with(r@, "/.local/share/speki/cards"@),
{
    let share = get_share_path();
    let r = share.concat("cards");
    proof {
        reveal_strlit("/.local/share/speki/");
        reveal_strlit("cards");
        reveal_strlit("/.local/share/speki/cards");
        lemma_ends_with_extend(share@, "cards"@, "/.local/share/speki/"@);
        assert("/.local/share/speki/"@ + "cards"@ =~= "/.local/share/speki/cards"@);
    }
    r
}

/// The spreadsheet used for bulk card import.
pub fn get_import_csv() -> (r: String)
    ensures
        ends_with(r@, "/.local/share/speki/import.csv"@),
{
    let share = get_share_path();
    let r = share.concat("import.csv");
    proof {
        reveal_strlit("/.local/share/speki/");
        reveal_strlit("import.csv");
        reveal_strlit("/.local/share/speki/import.csv");
        lemma_ends_with_extend(share@, "import.csv"@, "/.local/share/speki/"@);
        assert("/.local/share/speki/"@ + "import.csv"@ =~= "/.local/share/speki/import.csv"@);
    }
    r
}

/// The directory holding the learning-model helpers.
pub fn get_ml_path() -> (r: String)
    ensures
        ends_with(r@, "/.local/share/speki/ml/"@),
{
    let share = get_share_path();
    let r = share.concat("ml/");
    proof {
        reveal_strlit("/.local/share/speki/");
        reveal_strlit("ml/");
        reveal_strlit("/.local/share/speki/ml/");
        lemma_ends_with_extend(share@, "ml/"@, "/.local/share/speki/"@);
        assert("/.local/share/speki/"@ + "ml/"@ =~= "/.local/share/speki/ml/"@);
    }
    r
}

/// The script that runs the learning model.
pub fn get_runmodel_path() -> (r: String)
    ensures
        ends_with(r@, "/.local/share/speki/ml/runmodel.py"@),
{
    let ml = get_ml_path();
    let r = ml.concat("runmodel.py");
    proof {
        reveal_strlit("/.local/share/speki/ml/");
        reveal_strlit("runmodel.py");
        reveal_strlit("/.local/share/speki/ml/runmodel.py");
        lemma_ends_with_extend(ml@, "runmodel.py"@, "/.local/share/speki/ml/"@);
        assert("/.local/share/speki/ml/"@ + "runmodel.py"@
            =~= "/.local/share/speki/ml/runmodel.py"@);
    }
    r
}

/// The directory holding media attached to cards.
pub fn get_media_path() -> (r: String)
    ensures
        ends_with(r@, "/.local/share/speki/media/"@),
{
    let share = get_share_path();
    let r = share.concat("media/");
    proof {
        reveal_strlit("/.local/share/speki/");
        reveal_strlit("media/");
        reveal_strlit("/.local/share/speki/media/");
        lemma_ends_with_extend(share@, "media/"@, "/.local/share/speki/"@);
        assert("/.local/share/speki/"@ + "media/"@ =~= "/.local/share/speki/media/"@);
    }
    r
}

} // verus!

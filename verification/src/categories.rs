//! The category a card lives in: a collection name plus a nested directory
//! path inside it, kept as plain strings.

use vstd::prelude::*;

use crate::paths::{ends_with, get_cards_path};

verus! {

/// The directory components joined with `/` between them.
pub open spec fn join_with_slash(dirs: Seq<Seq<char>>) -> Seq<char>
    decreases dirs.len(),
{
    if dirs.len() == 0 {
        Seq::empty()
    } else if dirs.len() == 1 {
        dirs[0]
    } else {
        join_with_slash(dirs.drop_last()) + seq!['/'] + dirs.last()
    }
}

/// Two spaces of indentation per nesting level.
pub open spec fn indent_spaces(depth: int) -> Seq<char>
    decreases depth,
{
    if depth <= 0 {
        Seq::empty()
    } else {
        indent_spaces(depth - 1) + seq![' ', ' ']
    }
}

/// The category that a card is in; can be nested.
#[derive(Clone, Debug)]
pub struct Category {
    pub collection: String,
    pub dir: Vec<String>,
}

impl View for Category {
    type V = (Seq<char>, Seq<Seq<char>>);

    open spec fn view(&self) -> (Seq<char>, Seq<Seq<char>>) {
        (self.collection@, self.dir@.map_values(|s: String| s@))
    }
}

impl Category {
    /// The category one level deeper, under directory `s`.
    pub fn join(self, s: &str) -> (r: Self)
        ensures
            r@.0 == self@.0,
            r@.1 == self@.1.push(s@),
    {
        let mut dir = self.dir;
        dir.push(s.to_owned());
        let r = Category { collection: self.collection, dir };
        proof {
            assert(r@.1 =~= self@.1.push(s@));
        }
        r
    }

    /// The directory components joined by `/`.
    pub fn joined(&self) -> (r: String)
        ensures
            r@ == join_with_slash(self@.1),
    {
        let mut r = String::new();
        let mut i: usize = 0;
        while i < self.dir.len()
            invariant
                0 <= i <= self.dir@.len(),
                r@ == join_with_slash(self@.1.take(i as int)),
            decreases self.dir@.len() - i,
        {
            if i > 0 {
                r.append("/");
            }
            r.append(self.dir[i].as_str());
            proof {
                reveal_strlit("/");
                let pre = self@.1.take(i as int);
                let now = self@.1.take(i + 1);
                assert(now.drop_last() =~= pre);
                assert(now.last() == self@.1[i as int]);
                if i == 0 {
                    assert(join_with_slash(now) == now[0]);
                    assert(r@ =~= now[0]);
                }
            }
            i += 1;
        }
        proof {
            assert(self@.1.take(self.dir@.len() as int) =~= self@.1);
        }
        r
    }

    /// The category's own name: its deepest directory, or "root" at the
    /// top of a collection.
    pub fn print_it(&self) -> (r: String)
        ensures
            self@.1.len() == 0 ==> r@ == "root"@,
            self@.1.len() > 0 ==> r@ == self@.1.last(),
    {
        if self.dir.len() == 0 {
            String::from_str("root")
        } else {
            let s = self.dir[self.dir.len() - 1].clone();
            s
        }
    }

    /// The full directory path from the collection root, `/`-prefixed.
    pub fn print_full(&self) -> (r: String)
        ensures
            r@ == seq!['/'] + join_with_slash(self@.1),
    {
        let mut s = String::from_str("/");
        let j = self.joined();
        s.append(j.as_str());
        proof {
            reveal_strlit("/");
            assert("/"@ =~= seq!['/']);
        }
        s
    }

    /// The category's name, indented two spaces per nesting level.
    pub fn print_it_with_depth(&self) -> (r: String)
        ensures
            self@.1.len() == 0 ==> r@ == indent_spaces(self@.1.len() as int) + "root"@,
            self@.1.len() > 0 ==> r@ == indent_spaces(self@.1.len() as int) + self@.1.last(),
    {
        let mut s = String::new();
        let mut i: usize = 0;
        while i < self.dir.len()
            invariant
                0 <= i <= self.dir@.len(),
                s@ == indent_spaces(i as int),
            decreases self.dir@.len() - i,
        {
            s.append("  ");
            proof {
                reveal_strlit("  ");
                assert("  "@ =~= seq![' ', ' ']);
            }
            i += 1;
        }
        let name = self.print_it();
        s.append(name.as_str());
        s
    }

    /// The category's directory as a path string: the cards directory,
    /// then the collection, then the nested directories.
    pub fn as_path(&self) -> (r: String)
        ensures
            ends_with(
                r@,
                seq!['/'] + self@.0 + seq!['/'] + join_with_slash(self@.1),
            ),
    {
        let mut r = get_cards_path();
        r.append("/");
        r.append(self.collection.as_str());
        r.append("/");
        let j = self.joined();
        r.append(j.as_str());
        proof {
            reveal_strlit("/");
            let suffix = seq!['/'] + self@.0 + seq!['/'] + join_with_slash(self@.1);
            assert(r@.subrange(r@.len() - suffix.len(), r@.len() as int) =~= suffix);
        }
        r
    }
}

impl Default for Category {
    /// The top level of the default collection.
    fn default() -> (r: Self)
        ensures
            r@.0 == "personal"@,
            r@.1.len() == 0,
    {
        let r = Category { collection: String::from_str("personal"), dir: Vec::new() };
        proof {
            assert(r@.1 =~= Seq::<Seq<char>>::empty());
        }
        r
    }
}

} // verus!

//! Extraction of declared cargo feature names from a manifest's `[features]`
//! section, and resolution of which of them are active in the current build
//! from a snapshot of `CARGO_FEATURE_*` environment variables.
//!
//! The two stages are pure: the section scanner reads a sequence of text
//! lines and yields the set of declared feature keys; the activation
//! resolver intersects that set with the normalized names of the prefixed
//! environment variables and orders the result, `default` first. Reading the
//! manifest file and taking the environment snapshot are left to the caller.

pub mod resolver;
pub mod scanner;
pub mod text;

pub use resolver::list_enabled_among;
pub use resolver::test_list_enabled_among;
pub use scanner::parse_feature_keys_from_lines;
pub use scanner::test_parse_feature_keys_from_lines;

use vstd::prelude::*;

use crate::resolver::{enabled_set, names_of, output_ordered};
use crate::scanner::declared_keys;
use crate::text::views;

verus! {

/// Text of the enabled feature list's items: each feature name quoted, with
/// a trailing comma, one per line.
pub open spec fn render_items(fs: Seq<Seq<char>>) -> Seq<char>
    decreases fs.len(),
{
    if fs.len() == 0 {
        Seq::empty()
    } else {
        "\""@ + fs.first() + "\",\n"@ + render_items(fs.drop_first())
    }
}

/// Text of a constant declaration holding the enabled feature list under the
/// given constant name.
pub open spec fn render_constant(name: Seq<char>, fs: Seq<Seq<char>>) -> Seq<char> {
    "pub const "@ + name + ": &[&str] = &[\n"@ + render_items(fs) + "];\n"@
}

/// Rendering a list of items splits over concatenation.
pub proof fn lemma_render_items_concat(a: Seq<Seq<char>>, b: Seq<Seq<char>>)
    ensures
        render_items(a + b) == render_items(a) + render_items(b),
    decreases a.len(),
{
    if a.len() == 0 {
        assert(a + b =~= b);
        assert(render_items(a) + render_items(b) =~= render_items(b));
    } else {
        assert((a + b).first() == a.first());
        assert((a + b).drop_first() =~= a.drop_first() + b);
        lemma_render_items_concat(a.drop_first(), b);
        assert(render_items(a + b) =~= render_items(a) + render_items(b));
    }
}

/// Scan the manifest lines for the declared feature keys, then resolve which
/// of them the environment snapshot enables.
///
/// The result holds exactly the declared keys whose normalized form matches
/// the activation of some `CARGO_FEATURE_*` variable name, each once, in
/// ascending codepoint order, except that `default`, when enabled, stands
/// first.
pub fn list_enabled(lines: &Vec<String>, environment: &Vec<(String, String)>) -> (r: Vec<String>)
    ensures
        views(r@).to_set() == enabled_set(declared_keys(views(lines@)), names_of(environment@)),
        views(r@).no_duplicates(),
        output_ordered(views(r@)),
{
    let all_features = parse_feature_keys_from_lines(lines);
    list_enabled_among(&all_features, environment)
}

/// Render the enabled features as the text of a constant declaration under
/// the given constant name, ready to be written into a generated source
/// file.
///
/// The rendered list is stated through a witness sequence; by
/// [`resolver::lemma_output_unique`] only one sequence holds the enabled
/// names without duplicates and in the resolver's order, so the text is
/// fully determined.
pub fn list_enabled_as_string(const_name: &str, lines: &Vec<String>, environment: &Vec<
    (String, String),
>) -> (r: String)
    ensures
        exists|fs: Seq<Seq<char>>|
            {
                &&& fs.to_set() == enabled_set(
                    declared_keys(views(lines@)),
                    names_of(environment@),
                )
                &&& fs.no_duplicates()
                &&& output_ordered(fs)
                &&& r@ == render_constant(const_name@, fs)
            },
{
    let enabled = list_enabled(lines, environment);
    let ghost ev = views(enabled@);
    let mut buf = String::new();
    buf.append("pub const ");
    buf.append(const_name);
    buf.append(": &[&str] = &[\n");
    let ghost head = "pub const "@ + const_name@ + ": &[&str] = &[\n"@;
    proof {
        assert(buf@ =~= head);
        assert(ev.take(0) =~= Seq::<Seq<char>>::empty());
        assert(head + render_items(ev.take(0)) =~= head);
    }
    let n = enabled.len();
    let mut i: usize = 0;
    while i < n
        invariant
            n == enabled@.len(),
            ev == views(enabled@),
            head == "pub const "@ + const_name@ + ": &[&str] = &[\n"@,
            0 <= i <= n,
            buf@ == head + render_items(ev.take(i as int)),
        decreases n - i,
    {
        let ghost old_buf = buf@;
        buf.append("\"");
        buf.append(enabled[i].as_str());
        buf.append("\",\n");
        proof {
            assert(ev[i as int] == enabled@[i as int]@);
            let item = seq![ev[i as int]];
            assert(render_items(item.drop_first()) =~= Seq::<char>::empty());
            assert(render_items(item) =~= "\""@ + ev[i as int] + "\",\n"@);
            assert(ev.take(i + 1) =~= ev.take(i as int) + item);
            lemma_render_items_concat(ev.take(i as int), item);
            assert(buf@ =~= head + render_items(ev.take(i + 1)));
        }
        i += 1;
    }
    buf.append("];\n");
    proof {
        assert(ev.take(n as int) =~= ev);
        assert(buf@ =~= render_constant(const_name@, ev));
        assert(exists|fs: Seq<Seq<char>>|
            {
                &&& fs.to_set() == enabled_set(
                    declared_keys(views(lines@)),
                    names_of(environment@),
                )
                &&& fs.no_duplicates()
                &&& output_ordered(fs)
                &&& buf@ == render_constant(const_name@, fs)
            }) by {
            assert({
                &&& ev.to_set() == enabled_set(
                    declared_keys(views(lines@)),
                    names_of(environment@),
                )
                &&& ev.no_duplicates()
                &&& output_ordered(ev)
                &&& buf@ == render_constant(const_name@, ev)
            });
        }
    }
    buf
}

} // verus!

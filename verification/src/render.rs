use crate::filter::{chars_to_string, lemma_filter_idx_props};
use crate::picker::{as_ints, State};
use crate::snippet::commands_of;
use vstd::prelude::*;

verus! {

/// One full redraw of the picker, as plain values: the visible commands, the
/// highlighted position, the query line, and the help line.
pub struct RenderModel {
    pub items: Vec<String>,
    pub highlighted: Option<usize>,
    pub query: String,
    pub help: String,
}

/// The views of a sequence of strings.
pub open spec fn string_views(v: Seq<String>) -> Seq<Seq<char>> {
    v.map_values(|s: String| s@)
}

/// The commands at the filtered indices, in order.
pub open spec fn listed_commands(st: &State) -> Seq<Seq<char>> {
    st.f_indices().map_values(|i: int| st.snippets@[i].command@)
}

/// Projects the picker state onto a frame: the commands the filter lets
/// through, in order; the highlight at the selected position, absent when
/// nothing matches; the query text; and a fixed help line.
pub fn render_model(st: &State) -> (r: RenderModel)
    requires
        st.inv(),
    ensures
        string_views(r.items@) == listed_commands(st),
        r.highlighted == (if st.f_indices().len() == 0 {
            Option::<usize>::None
        } else {
            Option::Some(st.selected)
        }),
        r.query@ == st.query@,
        r.help@ == "  enter: run   ctrl+d: delete   esc: quit"@,
{
    let f = st.filtered();
    proof {
        lemma_filter_idx_props(commands_of(st.snippets@), st.query@);
    }
    let mut items: Vec<String> = Vec::new();
    let mut i: usize = 0;
    proof {
        assert(string_views(items@) =~= listed_commands(st).take(0));
    }
    while i < f.len()
        invariant
            i <= f@.len(),
            as_ints(f@) == st.f_indices(),
            forall|k: int|
                0 <= k < st.f_indices().len() ==> 0 <= #[trigger] st.f_indices()[k]
                    < st.snippets@.len(),
            string_views(items@) == listed_commands(st).take(i as int),
        decreases f@.len() - i,
    {
        proof {
            assert(as_ints(f@)[i as int] == f@[i as int] as int);
            assert(listed_commands(st)[i as int] == st.snippets@[st.f_indices()[i as int]].command@);
        }
        let idx = f[i];
        let ghost items_pre = items@;
        items.push(st.snippets[idx].command.clone());
        proof {
            assert(string_views(items@) =~= string_views(items_pre).push(
                st.snippets@[st.f_indices()[i as int]].command@,
            ));
            assert(listed_commands(st).take(i as int + 1) =~= listed_commands(st).take(
                i as int,
            ).push(listed_commands(st)[i as int]));
        }
        i += 1;
    }
    proof {
        assert(listed_commands(st).take(f@.len() as int) =~= listed_commands(st));
    }
    let highlighted = if f.len() == 0 {
        Option::None
    } else {
        Option::Some(st.selected)
    };
    let query = chars_to_string(&st.query);
    let help = "  enter: run   ctrl+d: delete   esc: quit".to_owned();
    RenderModel { items, highlighted, query, help }
}

} // verus!

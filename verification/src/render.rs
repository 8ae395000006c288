use vstd::prelude::*;

use std::collections::HashMap;

use complate::config::{Content, Template};
use complate::render::{render_template, Backend, ShellTrust};
use tokio::runtime::Builder;

use crate::Error;
use crate::blueprint::{Blueprint, var_views};
use crate::resolver::{resolve, resolved_pairs};
use crate::vartree::{flatten_tree, lemma_flatten_keys, keys_unrelated, pair_views, spec_flatten, spec_merge};

verus! {

/// An entry of the template source tree, named by its path relative to the
/// source root; a file carries its full content.
pub enum SourceEntry {
    Dir { rel_path: String },
    File { rel_path: String, content: String },
}

/// One step of materializing the rendered tree under the output root, named
/// by the rendered path relative to the output root.
pub enum OutAction {
    MkDir { rel_path: String },
    WriteFile { rel_path: String, content: String },
}

/// The fixed relative path of the blueprint descriptor file.
pub open spec fn descriptor_rel_path() -> Seq<char> {
    ".ranger.yaml"@
}

/// The rendered relative path an action writes to.
pub open spec fn action_rel_path(a: OutAction) -> Seq<char> {
    match a {
        OutAction::MkDir { rel_path } => rel_path@,
        OutAction::WriteFile { rel_path, .. } => rel_path@,
    }
}

/// What a helper-free render returns: the template `text` expanded in
/// strict mode, without escaping, against the nested tree built from the
/// dotted `values` pairs. With no helper commands the expansion depends on
/// these two arguments alone, so the successful result carries this name.
pub uninterp spec fn rendered_of(text: Seq<char>, values: Seq<(Seq<char>, Seq<char>)>) -> Seq<char>;

/// Relies on complate::render::render_template: renders `text` as a
/// handlebars template in strict mode with escaping disabled, against the
/// nested tree built from the dotted `values` pairs (handed over as value
/// overrides beside an empty variable declaration), with each of `helpers`
/// registered as a template function that runs its shell command and yields
/// that command's raw standard output, failing on a non-zero exit. The
/// result may depend on what those helper processes print, so nothing is
/// assumed about it; an undefined variable or helper reference, a template
/// syntax error, and a failing helper all surface as an error. With no
/// helpers registered the render is a function of `text` and `values`
/// alone, and a successful result is `rendered_of` them. The call runs
/// on a spawned blocking task, so a panic inside complate (a helper process
/// killed by a signal makes it unwrap a missing exit code) is caught by the
/// runtime and reported as an error. Overlapping keys are excluded because
/// complate's context building does not support them.
#[verifier::external_body]
fn complate_render(text: &str, values: &Vec<(String, String)>, helpers: &Vec<(String, String)>) -> (r: Result<String, String>)
    requires
        keys_unrelated(pair_views(values@)),
    ensures
        helpers@.len() == 0 ==> (r matches Ok(s) ==> s@ == rendered_of(text@, pair_views(values@))),
{
    let tpl = Template {
        content: Content::Inline(text.to_owned()),
        variables: Some(HashMap::new()),
        helpers: Some(helpers.iter().cloned().collect()),
    };
    let vals = values.iter().cloned().collect();
    let rt = Builder::new_current_thread().build().map_err(|e| format!("{}", e))?;
    let task = rt.spawn_blocking(move || {
        let inner = Builder::new_current_thread().build()?;
        inner.block_on(render_template(&tpl, &vals, &ShellTrust::Ultimate, &Backend::Headless, true))
    });
    match rt.block_on(task) {
        Ok(done) => done.map_err(|e| format!("{}", e)),
        Err(e) => Err(format!("{}", e)),
    }
}

/// True exactly when a rendered relative path names the blueprint
/// descriptor file, which must never appear under the output root.
pub fn is_descriptor(rendered_rel: &String) -> (r: bool)
    ensures
        r == (rendered_rel@ == descriptor_rel_path()),
{
    let descriptor = String::from_str(".ranger.yaml");
    rendered_rel.eq(&descriptor)
}

/// A source entry after template rendering: its rendered relative path and,
/// for a file, its rendered content.
pub enum RenderedEntry {
    Dir { rel_path: String },
    File { rel_path: String, content: String },
}

/// The model of a rendered entry: its path, and its content for a file.
pub open spec fn rendered_view(e: RenderedEntry) -> (Seq<char>, Option<Seq<char>>) {
    match e {
        RenderedEntry::Dir { rel_path } => (rel_path@, None),
        RenderedEntry::File { rel_path, content } => (rel_path@, Some(content@)),
    }
}

/// The model of an output action: its path, and its content for a write.
pub open spec fn action_view(a: OutAction) -> (Seq<char>, Option<Seq<char>>) {
    match a {
        OutAction::MkDir { rel_path } => (rel_path@, None),
        OutAction::WriteFile { rel_path, content } => (rel_path@, Some(content@)),
    }
}

/// The actions owed for rendered entries, in order: one per entry, a
/// directory-creation for a directory and a write for a file, except that
/// an entry whose rendered path names the blueprint descriptor contributes
/// nothing.
pub open spec fn spec_assemble(es: Seq<(Seq<char>, Option<Seq<char>>)>) -> Seq<(Seq<char>, Option<Seq<char>>)>
    decreases es.len(),
{
    if es.len() == 0 {
        Seq::empty()
    } else {
        let rest = spec_assemble(es.drop_first());
        if es[0].0 == descriptor_rel_path() {
            rest
        } else {
            seq![es[0]] + rest
        }
    }
}

/// No assembled action ever writes at the descriptor's path, whatever the
/// rendered entries were, and none is invented: at most one per entry.
pub proof fn lemma_assemble_excludes_descriptor(es: Seq<(Seq<char>, Option<Seq<char>>)>)
    ensures
        forall|i: int| 0 <= i < spec_assemble(es).len()
            ==> (#[trigger] spec_assemble(es)[i]).0 != descriptor_rel_path(),
        spec_assemble(es).len() <= es.len(),
    decreases es.len(),
{
    if es.len() > 0 {
        lemma_assemble_excludes_descriptor(es.drop_first());
        let rest = spec_assemble(es.drop_first());
        let r = spec_assemble(es);
        if es[0].0 != descriptor_rel_path() {
            assert forall|i: int| 0 <= i < r.len()
                implies (#[trigger] r[i]).0 != descriptor_rel_path() by {
                if i > 0 {
                    assert(r[i] == rest[i - 1]);
                }
            }
        }
    }
}

/// Turns rendered entries into output actions, in order: a directory
/// becomes a directory-creation action, a file a write action with its
/// rendered content, and an entry at the blueprint descriptor's rendered
/// path is dropped.
pub fn assemble_actions(rendered: Vec<RenderedEntry>) -> (r: Vec<OutAction>)
    ensures
        r@.map_values(|a: OutAction| action_view(a))
            == spec_assemble(rendered@.map_values(|e: RenderedEntry| rendered_view(e))),
{
    let ghost ev = rendered@.map_values(|e: RenderedEntry| rendered_view(e));
    let mut r: Vec<OutAction> = Vec::new();
    let mut i: usize = 0;
    proof {
        assert(ev.skip(0) =~= ev);
        assert(r@.map_values(|a: OutAction| action_view(a)) =~= Seq::<(Seq<char>, Option<Seq<char>>)>::empty());
    }
    while i < rendered.len()
        invariant
            0 <= i <= rendered.len(),
            ev == rendered@.map_values(|e: RenderedEntry| rendered_view(e)),
            spec_assemble(ev) == r@.map_values(|a: OutAction| action_view(a))
                + spec_assemble(ev.skip(i as int)),
        decreases rendered.len() - i,
    {
        let ghost rem = ev.skip(i as int);
        proof {
            assert(rem[0] == ev[i as int]);
            assert(rem.drop_first() =~= ev.skip(i as int + 1));
        }
        let (rel, content) = match &rendered[i] {
            RenderedEntry::Dir { rel_path } => (rel_path.clone(), None),
            RenderedEntry::File { rel_path, content } => (rel_path.clone(), Some(content.clone())),
        };
        if !is_descriptor(&rel) {
            let action = match content {
                None => OutAction::MkDir { rel_path: rel },
                Some(c) => OutAction::WriteFile { rel_path: rel, content: c },
            };
            proof {
                let f = |a: OutAction| action_view(a);
                assert(action_view(action) == rem[0]);
                assert(r@.push(action).map_values(f) =~= r@.map_values(f) + seq![rem[0]]);
                assert(r@.map_values(f) + (seq![rem[0]] + spec_assemble(ev.skip(i as int + 1)))
                    =~= (r@.map_values(f) + seq![rem[0]]) + spec_assemble(ev.skip(i as int + 1)));
            }
            r.push(action);
        }
        i = i + 1;
    }
    proof {
        assert(ev.skip(rendered@.len() as int) =~= Seq::<(Seq<char>, Option<Seq<char>>)>::empty());
        assert(r@.map_values(|a: OutAction| action_view(a)) + spec_assemble(Seq::empty())
            =~= r@.map_values(|a: OutAction| action_view(a)));
    }
    r
}

/// Appending one rendered entry extends the assembled actions by exactly
/// that entry, unless its path names the descriptor.
pub proof fn lemma_assemble_push(es: Seq<(Seq<char>, Option<Seq<char>>)>, e: (Seq<char>, Option<Seq<char>>))
    ensures
        e.0 == descriptor_rel_path() ==> spec_assemble(es.push(e)) == spec_assemble(es),
        e.0 != descriptor_rel_path() ==> spec_assemble(es.push(e)) == spec_assemble(es) + seq![e],
    decreases es.len(),
{
    if es.len() == 0 {
        assert(es.push(e)[0] == e);
        assert(es.push(e).drop_first() =~= Seq::<(Seq<char>, Option<Seq<char>>)>::empty());
        if e.0 != descriptor_rel_path() {
            assert(seq![e] + spec_assemble(Seq::empty()) =~= Seq::empty() + seq![e]);
        }
    } else {
        assert(es.push(e)[0] == es[0]);
        assert(es.push(e).drop_first() =~= es.drop_first().push(e));
        lemma_assemble_push(es.drop_first(), e);
        if es[0].0 != descriptor_rel_path() && e.0 != descriptor_rel_path() {
            assert(seq![es[0]] + (spec_assemble(es.drop_first()) + seq![e])
                =~= (seq![es[0]] + spec_assemble(es.drop_first())) + seq![e]);
        }
    }
}

/// Assembling rendered entries none of which names the descriptor keeps
/// every one of them, unchanged and in order.
pub proof fn lemma_assemble_identity(es: Seq<(Seq<char>, Option<Seq<char>>)>)
    requires
        forall|i: int| 0 <= i < es.len() ==> (#[trigger] es[i]).0 != descriptor_rel_path(),
    ensures
        spec_assemble(es) == es,
    decreases es.len(),
{
    if es.len() > 0 {
        assert forall|i: int| 0 <= i < es.drop_first().len()
            implies (#[trigger] es.drop_first()[i]).0 != descriptor_rel_path() by {
            assert(es.drop_first()[i] == es[i + 1]);
        }
        lemma_assemble_identity(es.drop_first());
        assert(seq![es[0]] + es.drop_first() =~= es);
    }
}

/// The actions are the assembled image of one rendered result per source
/// entry, the result of a directory carrying no content and that of a file
/// carrying some: what varies with the outside render is only the rendered
/// strings themselves, never an action's existence at a non-descriptor
/// path, its kind, or its place in source order.
pub open spec fn planned_from(
    entries: Seq<SourceEntry>,
    actions: Seq<OutAction>,
    rv: Seq<(Seq<char>, Option<Seq<char>>)>,
) -> bool {
    &&& rv.len() == entries.len()
    &&& (forall|k: int| 0 <= k < rv.len() ==> (((#[trigger] rv[k]).1 is None) <==> entries[k] is Dir))
    &&& actions.map_values(|a: OutAction| action_view(a)) == spec_assemble(rv)
}

/// Two rendered-entry sequences with the same paths assemble to the same
/// actions if they agree on every entry away from the descriptor path.
pub proof fn lemma_assemble_congruent(
    a: Seq<(Seq<char>, Option<Seq<char>>)>,
    b: Seq<(Seq<char>, Option<Seq<char>>)>,
)
    requires
        a.len() == b.len(),
        forall|k: int| 0 <= k < a.len() ==> (#[trigger] a[k]).0 == b[k].0,
        forall|k: int| 0 <= k < a.len()
            ==> ((#[trigger] a[k]).0 != descriptor_rel_path() ==> a[k] == b[k]),
    ensures
        spec_assemble(a) == spec_assemble(b),
    decreases a.len(),
{
    if a.len() > 0 {
        let ad = a.drop_first();
        let bd = b.drop_first();
        assert forall|k: int| 0 <= k < ad.len() implies (#[trigger] ad[k]).0 == bd[k].0
            && (ad[k].0 != descriptor_rel_path() ==> ad[k] == bd[k]) by {
            assert(ad[k] == a[k + 1]);
            assert(bd[k] == b[k + 1]);
        }
        lemma_assemble_congruent(ad, bd);
    }
}

/// The per-entry result of a helper-free render: the rendered path, and for
/// a file the rendered content.
pub open spec fn pure_rendered(e: SourceEntry, vals: Seq<(Seq<char>, Seq<char>)>) -> (Seq<char>, Option<Seq<char>>) {
    match e {
        SourceEntry::Dir { rel_path } => (rendered_of(rel_path@, vals), None),
        SourceEntry::File { rel_path, content } => (
            rendered_of(rel_path@, vals),
            Some(rendered_of(content@, vals)),
        ),
    }
}

/// The flat dotted values the renderer resolves and hands to every render:
/// defaults, file overrides and flag overrides merged in order, flattened
/// under the `vars` namespace root.
pub open spec fn resolved_values(
    vars: Seq<(Seq<char>, Option<Seq<char>>)>,
    file_pairs: Seq<(Seq<char>, Seq<char>)>,
    flag_pairs: Seq<(Seq<char>, Seq<char>)>,
) -> Seq<(Seq<char>, Seq<char>)> {
    spec_flatten(spec_merge(resolved_pairs(vars, file_pairs, flag_pairs)), "vars"@)
}

/// There is one rendered result per source entry, with the entry's kind,
/// whose assembled image the actions are.
pub open spec fn planned(entries: Seq<SourceEntry>, actions: Seq<OutAction>) -> bool {
    exists|rv: Seq<(Seq<char>, Option<Seq<char>>)>| #[trigger] planned_from(entries, actions, rv)
}

/// Renders every source entry against the blueprint's variables resolved
/// with the given overrides (file entries first, flag entries after, so
/// later sources win), under the `vars` namespace root: each entry's
/// relative path is rendered as a template, an entry whose rendered path
/// names the blueprint descriptor is skipped before its content is even
/// rendered, a directory becomes a directory-creation action and a file's
/// rendered content a write action, in source order: the actions are the
/// assembled image of per-entry rendered results with the entries' kinds
/// (`planned_from`). For a blueprint without helpers the render is pure and
/// the actions are exactly the assembled image of each entry's
/// `pure_rendered` result over the resolved values. Any failed render
/// aborts the whole pass with the first error, so no partial action list is
/// ever returned.
#[verifier::loop_isolation(false)]
pub fn generate_actions(
    bp: &Blueprint,
    file_overrides: &Vec<(String, String)>,
    flag_overrides: &Vec<(String, String)>,
    entries: &Vec<SourceEntry>,
) -> (r: Result<Vec<OutAction>, Error>)
    ensures
        r matches Ok(actions) ==> planned(entries@, actions@),
        bp.helpers@.len() == 0 ==> (r matches Ok(actions)
            ==> actions@.map_values(|a: OutAction| action_view(a)) == spec_assemble(
                entries@.map_values(
                    |e: SourceEntry| pure_rendered(
                        e,
                        resolved_values(
                            var_views(bp.variables@),
                            pair_views(file_overrides@),
                            pair_views(flag_overrides@),
                        ),
                    ),
                ),
            )),
        r matches Ok(actions) ==> forall|a: int| 0 <= a < actions@.len()
            ==> action_rel_path(#[trigger] actions@[a]) != descriptor_rel_path(),
        r matches Ok(actions) ==> actions@.len() <= entries@.len(),
        entries@.len() == 0 ==> (r matches Ok(actions) && actions@.len() == 0),
        r matches Err(e) ==> e is Render,
{
    let tree = resolve(bp, file_overrides, flag_overrides);
    let root_key = String::from_str("vars");
    proof {
        reveal_strlit("vars");
    }
    let values = flatten_tree(&tree, &root_key);
    let ghost vals = pair_views(values@);
    let ghost mapped = entries@.map_values(|e: SourceEntry| pure_rendered(e, vals));
    proof {
        lemma_flatten_keys(tree@, root_key@);
        assert(vals == resolved_values(
            var_views(bp.variables@),
            pair_views(file_overrides@),
            pair_views(flag_overrides@),
        ));
    }
    let mut rendered: Vec<RenderedEntry> = Vec::new();
    let ghost mut rv: Seq<(Seq<char>, Option<Seq<char>>)> = Seq::empty();
    let mut i: usize = 0;
    proof {
        assert(rendered@.map_values(|e: RenderedEntry| rendered_view(e)) =~= spec_assemble(rv));
    }
    while i < entries.len()
        invariant
            0 <= i <= entries.len(),
            rv.len() == i,
            forall|k: int| 0 <= k < i ==> (((#[trigger] rv[k]).1 is None) <==> entries@[k] is Dir),
            rendered@.map_values(|e: RenderedEntry| rendered_view(e)) == spec_assemble(rv),
            bp.helpers@.len() == 0 ==> forall|k: int| 0 <= k < i
                ==> (#[trigger] rv[k]).0 == mapped[k].0
                    && (rv[k].0 != descriptor_rel_path() ==> rv[k] == mapped[k]),
        decreases entries.len() - i,
    {
        let ghost f = |e: RenderedEntry| rendered_view(e);
        match &entries[i] {
            SourceEntry::Dir { rel_path } => {
                let rr = match complate_render(rel_path.as_str(), &values, &bp.helpers) {
                    Ok(p) => p,
                    Err(m) => return Err(Error::Render(m)),
                };
                let ghost e = (rr@, None::<Seq<char>>);
                proof {
                    lemma_assemble_push(rv, e);
                    if bp.helpers@.len() == 0 {
                        assert(mapped[i as int] == pure_rendered(entries@[i as int], vals));
                        assert(e == mapped[i as int]);
                    }
                }
                if !is_descriptor(&rr) {
                    proof {
                        assert(rendered@.push(RenderedEntry::Dir { rel_path: rr }).map_values(f)
                            =~= rendered@.map_values(f) + seq![e]);
                    }
                    rendered.push(RenderedEntry::Dir { rel_path: rr });
                }
                proof {
                    rv = rv.push(e);
                }
            },
            SourceEntry::File { rel_path, content } => {
                let rr = match complate_render(rel_path.as_str(), &values, &bp.helpers) {
                    Ok(p) => p,
                    Err(m) => return Err(Error::Render(m)),
                };
                if !is_descriptor(&rr) {
                    let body = match complate_render(content.as_str(), &values, &bp.helpers) {
                        Ok(c) => c,
                        Err(m) => return Err(Error::Render(m)),
                    };
                    let ghost e = (rr@, Some(body@));
                    proof {
                        lemma_assemble_push(rv, e);
                        if bp.helpers@.len() == 0 {
                            assert(mapped[i as int] == pure_rendered(entries@[i as int], vals));
                            assert(e == mapped[i as int]);
                        }
                        assert(rendered@.push(RenderedEntry::File { rel_path: rr, content: body }).map_values(f)
                            =~= rendered@.map_values(f) + seq![e]);
                    }
                    rendered.push(RenderedEntry::File { rel_path: rr, content: body });
                    proof {
                        rv = rv.push(e);
                    }
                } else {
                    // the content of a skipped descriptor entry is never
                    // rendered; any file result stands in for it
                    let ghost e = (rr@, Some(Seq::<char>::empty()));
                    proof {
                        lemma_assemble_push(rv, e);
                        if bp.helpers@.len() == 0 {
                            assert(mapped[i as int] == pure_rendered(entries@[i as int], vals));
                            assert(e.0 == mapped[i as int].0);
                        }
                        rv = rv.push(e);
                    }
                }
            },
        }
        i = i + 1;
    }
    let ghost evs = rendered@.map_values(|e: RenderedEntry| rendered_view(e));
    let actions = assemble_actions(rendered);
    proof {
        lemma_assemble_excludes_descriptor(rv);
        lemma_assemble_identity(evs);
        let f = |a: OutAction| action_view(a);
        assert(actions@.map_values(f) == spec_assemble(rv));
        assert(planned_from(entries@, actions@, rv));
        assert(planned(entries@, actions@));
        if bp.helpers@.len() == 0 {
            lemma_assemble_congruent(rv, mapped);
            assert(actions@.map_values(f) == spec_assemble(mapped));
        }
        assert forall|a: int| 0 <= a < actions@.len()
            implies action_rel_path(#[trigger] actions@[a]) != descriptor_rel_path() by {
            assert(actions@.map_values(f)[a] == action_view(actions@[a]));
            assert(action_rel_path(actions@[a]) == action_view(actions@[a]).0);
        }
        assert(actions@.len() == actions@.map_values(f).len());
    }
    Ok(actions)
}

} // verus!

//! Which buffer formats clients are told to use on an output.
use vstd::prelude::*;

verus! {

/// A buffer format: its code and its modifier.
#[derive(Debug, Clone, Copy, PartialEq, Eq, Structural)]
pub struct Format {
    pub code: u32,
    pub modifier: u64,
}

/// What clients are told: the formats that can be rendered from on `node`, and
/// those of them that the planes of the output can scan out.
#[derive(Debug)]
pub struct SurfaceDmabufFeedback {
    pub node: u64,
    pub render: Vec<Format>,
    pub primary_scanout: Option<Vec<Format>>,
    pub overlay_scanout: Option<Vec<Format>>,
}

/// Those of the first `n` formats that are also in the other list, in their order.
pub open spec fn common_formats(formats: Seq<Format>, others: Seq<Format>, n: nat) -> Seq<Format>
    decreases n,
{
    if n == 0 {
        Seq::empty()
    } else {
        let less = common_formats(formats, others, (n - 1) as nat);
        if others.contains(formats[n - 1]) {
            less.push(formats[n - 1])
        } else {
            less
        }
    }
}

fn contains_format(formats: &Vec<Format>, format: Format) -> (yes: bool)
    ensures
        yes == formats@.contains(format),
{
    let mut i: usize = 0;
    while i < formats.len()
        invariant
            i <= formats@.len(),
            forall|j: int| 0 <= j < i ==> formats@[j] != format,
        decreases formats@.len() - i,
    {
        if formats[i] == format {
            return true;
        }
        i += 1;
    }
    false
}

fn intersection(formats: &Vec<Format>, others: &Vec<Format>) -> (common: Vec<Format>)
    ensures
        common@ == common_formats(formats@, others@, formats@.len()),
{
    let mut common: Vec<Format> = Vec::new();
    let mut i: usize = 0;
    while i < formats.len()
        invariant
            i <= formats@.len(),
            common@ == common_formats(formats@, others@, i as nat),
        decreases formats@.len() - i,
    {
        if contains_format(others, formats[i]) {
            common.push(formats[i]);
        }
        i += 1;
    }
    common
}

/// The feedback for surfaces whose buffers come from `render_node`, on an output
/// that `target_node` scans out.
pub open spec fn is_feedback_for(
    feedback: SurfaceDmabufFeedback,
    render_node: u64,
    target_node: u64,
    render_formats: Seq<Format>,
    primary_plane_formats: Seq<Format>,
    overlay_plane_formats: Option<Seq<Format>>,
) -> bool {
    &&& feedback.node == render_node
    &&& feedback.render@ == render_formats
    &&& match feedback.primary_scanout {
        Some(formats) => target_node == render_node && formats@ == common_formats(
            primary_plane_formats,
            render_formats,
            primary_plane_formats.len(),
        ),
        None => target_node != render_node,
    }
    &&& match feedback.overlay_scanout {
        Some(formats) => {
            &&& target_node == render_node
            &&& overlay_plane_formats matches Some(overlay) && formats@ == common_formats(
                overlay,
                render_formats,
                overlay.len(),
            )
        },
        None => target_node != render_node || overlay_plane_formats is None,
    }
}

/// The formats that clients are told to use. Scan-out formats are limited to those
/// that can also be rendered from, so that there is always a fallback; another node
/// than the one that scans out is offered none.
pub fn get_surface_dmabuf_feedback(
    render_node: u64,
    target_node: u64,
    render_formats: Vec<Format>,
    primary_plane_formats: &Vec<Format>,
    overlay_plane_formats: &Option<Vec<Format>>,
) -> (feedback: SurfaceDmabufFeedback)
    ensures
        is_feedback_for(
            feedback,
            render_node,
            target_node,
            render_formats@,
            primary_plane_formats@,
            match *overlay_plane_formats {
                Some(formats) => Some(formats@),
                None => None,
            },
        ),
{
    let same_node: bool = target_node == render_node;
    let primary_scanout: Option<Vec<Format>> = if same_node {
        Some(intersection(primary_plane_formats, &render_formats))
    } else {
        None
    };
    let overlay_scanout: Option<Vec<Format>> = match overlay_plane_formats {
        Some(formats) => if same_node {
            Some(intersection(formats, &render_formats))
        } else {
            None
        },
        None => None,
    };
    SurfaceDmabufFeedback {
        node: render_node,
        render: render_formats,
        primary_scanout,
        overlay_scanout,
    }
}

/// Whatever clients are told to scan out can also be rendered from.
pub proof fn lemma_scanout_formats_can_be_rendered(
    formats: Seq<Format>,
    render_formats: Seq<Format>,
    n: nat,
    i: int,
)
    requires
        n <= formats.len(),
        0 <= i < common_formats(formats, render_formats, n).len(),
    ensures
        render_formats.contains(common_formats(formats, render_formats, n)[i]),
        formats.contains(common_formats(formats, render_formats, n)[i]),
    decreases n,
{
    if n > 0 {
        let less = common_formats(formats, render_formats, (n - 1) as nat);
        if i < less.len() {
            lemma_scanout_formats_can_be_rendered(formats, render_formats, (n - 1) as nat, i);
        }
    }
}

/// No format that is both scanned out and rendered from is left out.
pub proof fn lemma_scanout_formats_are_complete(
    formats: Seq<Format>,
    render_formats: Seq<Format>,
    n: nat,
    i: int,
)
    requires
        0 <= i < n <= formats.len(),
        render_formats.contains(formats[i]),
    ensures
        common_formats(formats, render_formats, n).contains(formats[i]),
    decreases n,
{
    let all = common_formats(formats, render_formats, n);
    let less = common_formats(formats, render_formats, (n - 1) as nat);
    if i < n - 1 {
        lemma_scanout_formats_are_complete(formats, render_formats, (n - 1) as nat, i);
        let k = choose|k: int| 0 <= k < less.len() && less[k] == formats[i];
        assert(all[k] == formats[i]);
    } else {
        assert(all[less.len() as int] == formats[i]);
    }
}

/// The formats in common are a filtered list: none is doubled or moved.
pub proof fn lemma_scanout_formats_are_filtered(
    formats: Seq<Format>,
    render_formats: Seq<Format>,
    n: nat,
)
    requires
        n <= formats.len(),
    ensures
        common_formats(formats, render_formats, n) == formats.take(n as int).filter(
            |format: Format| render_formats.contains(format),
        ),
    decreases n,
{
    reveal(Seq::filter);
    if n > 0 {
        lemma_scanout_formats_are_filtered(formats, render_formats, (n - 1) as nat);
        assert(formats.take(n as int).drop_last() =~= formats.take(n - 1));
    }
    assert(common_formats(formats, render_formats, n) =~= formats.take(n as int).filter(
        |format: Format| render_formats.contains(format),
    ));
}

/// Formats to scan out are offered on the node that scans out, and on no other: those of the
/// primary plane always, and those of the overlay planes where the device has any. What can
/// be rendered from is always told in full.
pub proof fn lemma_only_the_target_scans_out(
    feedback: SurfaceDmabufFeedback,
    render_node: u64,
    target_node: u64,
    render_formats: Seq<Format>,
    primary_plane_formats: Seq<Format>,
    overlay_plane_formats: Option<Seq<Format>>,
)
    requires
        is_feedback_for(
            feedback,
            render_node,
            target_node,
            render_formats,
            primary_plane_formats,
            overlay_plane_formats,
        ),
    ensures
        feedback.node == render_node,
        feedback.render@ == render_formats,
        feedback.primary_scanout is Some <==> target_node == render_node,
        feedback.overlay_scanout is Some <==> target_node == render_node
            && overlay_plane_formats is Some,
        feedback.primary_scanout matches Some(formats) ==> forall|format: Format| #[trigger]
            formats@.contains(format) <==> primary_plane_formats.contains(format)
                && render_formats.contains(format),
        feedback.overlay_scanout matches Some(formats) ==> forall|format: Format| #[trigger]
            formats@.contains(format) <==> overlay_plane_formats->0.contains(format)
                && render_formats.contains(format),
{
    if let Some(formats) = feedback.primary_scanout {
        assert forall|format: Format| #[trigger] formats@.contains(format) <==>
            primary_plane_formats.contains(format) && render_formats.contains(format) by {
            lemma_common_formats_contain(primary_plane_formats, render_formats, format);
        }
    }
    if let Some(formats) = feedback.overlay_scanout {
        let overlay = overlay_plane_formats->0;
        assert forall|format: Format| #[trigger] formats@.contains(format) <==> overlay.contains(
            format,
        ) && render_formats.contains(format) by {
            lemma_common_formats_contain(overlay, render_formats, format);
        }
    }
}

proof fn lemma_common_formats_contain(
    formats: Seq<Format>,
    render_formats: Seq<Format>,
    format: Format,
)
    ensures
        common_formats(formats, render_formats, formats.len()).contains(format)
            <==> formats.contains(format) && render_formats.contains(format),
{
    let (common, n) = (common_formats(formats, render_formats, formats.len()), formats.len());
    if common.contains(format) {
        let i = choose|i: int| 0 <= i < common.len() && common[i] == format;
        lemma_scanout_formats_can_be_rendered(formats, render_formats, n, i);
    }
    if formats.contains(format) && render_formats.contains(format) {
        let i = choose|i: int| 0 <= i < formats.len() && formats[i] == format;
        lemma_scanout_formats_are_complete(formats, render_formats, n, i);
    }
}

} // verus!

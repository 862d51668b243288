use vstd::prelude::*;

verus! {

/// Flips the FPS overlay and its frame-time graph once for each of `messages`
/// toggle messages.
pub fn toggle_fps_display(enabled: &mut bool, graph_enabled: &mut bool, messages: usize)
    ensures
        *final(enabled) == (if messages % 2 == 0 { *old(enabled) } else { !*old(enabled) }),
        *final(graph_enabled) == (if messages % 2 == 0 {
            *old(graph_enabled)
        } else {
            !*old(graph_enabled)
        }),
{
    let mut i: usize = 0;
    while i < messages
        invariant
            i <= messages,
            *enabled == (if i % 2 == 0 { *old(enabled) } else { !*old(enabled) }),
            *graph_enabled == (if i % 2 == 0 { *old(graph_enabled) } else { !*old(graph_enabled) }),
        decreases messages - i,
    {
        *enabled = !*enabled;
        *graph_enabled = !*graph_enabled;
        i = i + 1;
    }
}

} // verus!

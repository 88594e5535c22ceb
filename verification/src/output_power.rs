//! Power management of the screens.
use vstd::prelude::*;

use crate::surface::ThreadCommand;
use crate::surface_handle::Surface;

verus! {

/// A surface, with the output that its own output mirrors.
#[derive(Debug)]
pub struct OutputSurface {
    pub surface: Surface,
    pub mirroring: Option<u64>,
}

/// The surface shows the output, be it as its own or by mirroring it.
pub open spec fn shows(entry: OutputSurface, output: u64) -> bool {
    entry.surface.output == output || entry.mirroring == Some(output)
}

/// A surface with its screen switched on or off.
pub open spec fn switched(entry: OutputSurface, on: bool) -> OutputSurface {
    OutputSurface { surface: Surface { dpms: on, ..entry.surface }, ..entry }
}

/// The messages by which the surfaces, of the first `n`, that show the output (or
/// all, where none is given) are switched, with the surfaces' indices.
pub open spec fn power_commands(
    surfaces: Seq<OutputSurface>,
    output: Option<u64>,
    on: bool,
    n: nat,
) -> Seq<(usize, ThreadCommand)>
    decreases n,
{
    if n == 0 {
        Seq::empty()
    } else {
        let less = power_commands(surfaces, output, on, (n - 1) as nat);
        let entry = surfaces[n - 1];
        if output is Some && !shows(entry, output->0) {
            less
        } else {
            match entry.surface.power_command(on) {
                Some(command) => less.push(((n - 1) as usize, command)),
                None => less,
            }
        }
    }
}

fn switch(surfaces: &mut Vec<OutputSurface>, output: Option<u64>, on: bool) -> (commands: Vec<
    (usize, ThreadCommand),
>)
    ensures
        final(surfaces)@.len() == old(surfaces)@.len(),
        forall|i: int|
            0 <= i < old(surfaces)@.len() ==> #[trigger] final(surfaces)@[i] == (if output is Some
                && !shows(old(surfaces)@[i], output->0) {
                old(surfaces)@[i]
            } else {
                switched(old(surfaces)@[i], on)
            }),
        commands@ == power_commands(old(surfaces)@, output, on, old(surfaces)@.len()),
{
    let ghost before = surfaces@;
    let mut commands: Vec<(usize, ThreadCommand)> = Vec::new();
    let mut i: usize = 0;
    while i < surfaces.len()
        invariant
            i <= surfaces@.len(),
            surfaces@.len() == before.len(),
            forall|k: int|
                0 <= k < i ==> #[trigger] surfaces@[k] == (if output is Some && !shows(
                    before[k],
                    output->0,
                ) {
                    before[k]
                } else {
                    switched(before[k], on)
                }),
            forall|k: int| i <= k < before.len() ==> #[trigger] surfaces@[k] == before[k],
            commands@ == power_commands(before, output, on, i as nat),
        decreases surfaces@.len() - i,
    {
        let meant: bool = match output {
            Some(output) => {
                let mirrors: bool = match surfaces[i].mirroring {
                    Some(mirrored) => mirrored == output,
                    None => false,
                };
                surfaces[i].surface.output == output || mirrors
            },
            None => true,
        };
        if meant {
            match surfaces[i].surface.set_dpms(on) {
                Some(command) => {
                    commands.push((i, command));
                },
                None => {},
            }
        }
        i += 1;
    }
    commands
}

/// Switches all screens on. Returns the messages to the surfaces whose screens were
/// off. Where there are any, clients are told about the power state, and the
/// configuration of the outputs is applied again: the device may have dropped the
/// color pipeline of a screen that was off.
pub fn set_all_surfaces_dpms_on(surfaces: &mut Vec<OutputSurface>) -> (commands: Vec<
    (usize, ThreadCommand),
>)
    ensures
        final(surfaces)@.len() == old(surfaces)@.len(),
        forall|i: int|
            0 <= i < old(surfaces)@.len() ==> #[trigger] final(surfaces)@[i] == switched(
                old(surfaces)@[i],
                true,
            ),
        commands@ == power_commands(old(surfaces)@, None, true, old(surfaces)@.len()),
{
    switch(surfaces, None, true)
}

/// The first surface of the output, from index `i` on.
pub open spec fn primary_surface_from(surfaces: Seq<OutputSurface>, output: u64, i: int) -> Option<
    int,
>
    decreases surfaces.len() - i,
{
    if i < 0 || i >= surfaces.len() {
        None
    } else if surfaces[i].surface.output == output {
        Some(i)
    } else {
        primary_surface_from(surfaces, output, i + 1)
    }
}

/// Whether the screen of an output is on, where there is one.
pub fn get_dpms(surfaces: &Vec<OutputSurface>, output: u64) -> (on: Option<bool>)
    ensures
        on == match primary_surface_from(surfaces@, output, 0) {
            Some(i) => Some(surfaces@[i].surface.dpms),
            None => None::<bool>,
        },
{
    let mut i: usize = 0;
    while i < surfaces.len()
        invariant
            i <= surfaces@.len(),
            primary_surface_from(surfaces@, output, 0) == primary_surface_from(
                surfaces@,
                output,
                i as int,
            ),
        decreases surfaces@.len() - i,
    {
        if surfaces[i].surface.output == output {
            return Some(surfaces[i].surface.get_dpms());
        }
        i += 1;
    }
    None
}

/// Switches the screen of an output, and those that mirror it, on or off.
pub fn set_dpms(surfaces: &mut Vec<OutputSurface>, output: u64, on: bool) -> (commands: Vec<
    (usize, ThreadCommand),
>)
    ensures
        final(surfaces)@.len() == old(surfaces)@.len(),
        forall|i: int|
            0 <= i < old(surfaces)@.len() ==> #[trigger] final(surfaces)@[i] == (if shows(
                old(surfaces)@[i],
                output,
            ) {
                switched(old(surfaces)@[i], on)
            } else {
                old(surfaces)@[i]
            }),
        commands@ == power_commands(old(surfaces)@, Some(output), on, old(surfaces)@.len()),
{
    switch(surfaces, Some(output), on)
}

/// Where all screens are on already, switching them on sends nothing.
pub proof fn lemma_nothing_to_wake(surfaces: Seq<OutputSurface>, n: nat)
    requires
        n <= surfaces.len(),
        forall|i: int| 0 <= i < surfaces.len() ==> (#[trigger] surfaces[i]).surface.dpms,
    ensures
        power_commands(surfaces, None, true, n).len() == 0,
    decreases n,
{
    if n > 0 {
        lemma_nothing_to_wake(surfaces, (n - 1) as nat);
    }
}

/// Every screen that is off is woken, by a request for a render.
pub proof fn lemma_sleeping_are_woken(surfaces: Seq<OutputSurface>, n: nat, i: int)
    requires
        0 <= i < n <= surfaces.len(),
        n <= usize::MAX,
        !surfaces[i].surface.dpms,
    ensures
        power_commands(surfaces, None, true, n).contains(
            (i as usize, ThreadCommand::ScheduleRender),
        ),
    decreases n,
{
    let all = power_commands(surfaces, None, true, n);
    let less = power_commands(surfaces, None, true, (n - 1) as nat);
    let wake = (i as usize, ThreadCommand::ScheduleRender);
    if i < n - 1 {
        lemma_sleeping_are_woken(surfaces, (n - 1) as nat, i);
        let k = choose|k: int| 0 <= k < less.len() && less[k] == wake;
        assert(all[k] == wake);
    } else {
        assert(all[less.len() as int] == wake);
    }
}

/// A screen is sent a message exactly if it is meant and its power state changes: with an
/// output given, the screens of that output and those that mirror it are meant, and all of
/// them otherwise. A screen that goes on is sent a request for a render, and one that goes
/// off is told so.
pub proof fn lemma_meant_screens_are_sent(
    surfaces: Seq<OutputSurface>,
    output: Option<u64>,
    on: bool,
    n: nat,
    i: usize,
    command: ThreadCommand,
)
    requires
        n <= surfaces.len(),
        n <= usize::MAX,
    ensures
        power_commands(surfaces, output, on, n).contains((i, command)) <==> {
            &&& i < n
            &&& output is None || surfaces[i as int].surface.output == output->0
                || surfaces[i as int].mirroring == output
            &&& surfaces[i as int].surface.dpms != on
            &&& on ==> command == ThreadCommand::ScheduleRender
            &&& !on ==> command == ThreadCommand::DpmsOff
        },
    decreases n,
{
    if n > 0 {
        let all = power_commands(surfaces, output, on, n);
        let less = power_commands(surfaces, output, on, (n - 1) as nat);
        lemma_meant_screens_are_sent(surfaces, output, on, (n - 1) as nat, i, command);
        if all != less {
            let last = all[less.len() as int];
            assert(all == less.push(last));
            assert(all.contains(last));
            if less.contains((i, command)) {
                let k = choose|k: int| 0 <= k < less.len() && less[k] == (i, command);
                assert(all[k] == (i, command));
            }
            if all.contains((i, command)) && last != (i, command) {
                let k = choose|k: int| 0 <= k < all.len() && all[k] == (i, command);
                assert(less[k] == (i, command));
            }
        }
    }
}

/// No screen is sent two messages, and they go out in the order of the screens.
pub proof fn lemma_screens_are_sent_in_order(
    surfaces: Seq<OutputSurface>,
    output: Option<u64>,
    on: bool,
    n: nat,
    j: int,
    k: int,
)
    requires
        n <= surfaces.len(),
        n <= usize::MAX,
        0 <= j < k < power_commands(surfaces, output, on, n).len(),
    ensures
        power_commands(surfaces, output, on, n)[j].0 < power_commands(
            surfaces,
            output,
            on,
            n,
        )[k].0 < n,
    decreases n,
{
    if n > 0 {
        let less = power_commands(surfaces, output, on, (n - 1) as nat);
        if k < less.len() {
            lemma_screens_are_sent_in_order(surfaces, output, on, (n - 1) as nat, j, k);
        } else {
            let (i, command) = less[j];
            assert(less.contains((i, command)));
            lemma_meant_screens_are_sent(surfaces, output, on, (n - 1) as nat, i, command);
        }
    }
}

/// A surface shows the output it belongs to and the one it mirrors, and switching it
/// changes its power state alone.
pub proof fn lemma_switching_changes_power_alone(entry: OutputSurface, output: u64, on: bool)
    ensures
        shows(entry, output) <==> entry.surface.output == output || entry.mirroring == Some(output),
        switched(entry, on).surface.dpms == on,
        switched(entry, on).mirroring == entry.mirroring,
        switched(entry, on).surface == (Surface { dpms: on, ..entry.surface }),
        switched(switched(entry, !on), on) == switched(entry, on),
        switched(entry, entry.surface.dpms) == entry,
{
}

/// The surface that answers for an output is the first one that belongs to it.
pub proof fn lemma_first_surface_answers(surfaces: Seq<OutputSurface>, output: u64, i: int)
    requires
        0 <= i <= surfaces.len(),
    ensures
        match primary_surface_from(surfaces, output, i) {
            Some(k) => {
                &&& i <= k < surfaces.len()
                &&& surfaces[k].surface.output == output
                &&& forall|j: int| i <= j < k ==> (#[trigger] surfaces[j]).surface.output != output
            },
            None => forall|j: int|
                i <= j < surfaces.len() ==> (#[trigger] surfaces[j]).surface.output != output,
        },
    decreases surfaces.len() - i,
{
    if i < surfaces.len() {
        lemma_first_surface_answers(surfaces, output, i + 1);
    }
}

} // verus!

//! The agent's settings and how layered sources combine into them.

use vstd::prelude::*;

verus! {

/// Configuration for the agent.
#[derive(Debug)]
pub struct Configuration {
    pub path: String,
    pub max_threads: i32,
    pub debug: bool,
}

/// The settings that one source provides: a file, or the environment.
#[derive(Debug)]
pub struct ConfigLayer {
    pub path: Option<String>,
    pub max_threads: Option<i32>,
    pub debug: Option<bool>,
}

/// What a [`Configuration`] stands for.
pub ghost struct ConfigView {
    pub path: Seq<char>,
    pub max_threads: i32,
    pub debug: bool,
}

impl View for Configuration {
    type V = ConfigView;

    open spec fn view(&self) -> ConfigView {
        ConfigView { path: self.path@, max_threads: self.max_threads, debug: self.debug }
    }
}

/// The settings used where no source says otherwise: scan the current
/// directory on one thread, with debug output.
pub open spec fn default_view() -> ConfigView {
    ConfigView { path: seq!['.'], max_threads: 1, debug: true }
}

/// `base` with every setting that `layer` provides taken from `layer`.
pub open spec fn overlaid(base: ConfigView, layer: ConfigLayer) -> ConfigView {
    ConfigView {
        path: match layer.path {
            Some(p) => p@,
            None => base.path,
        },
        max_threads: match layer.max_threads {
            Some(n) => n,
            None => base.max_threads,
        },
        debug: match layer.debug {
            Some(d) => d,
            None => base.debug,
        },
    }
}

/// The settings that `layers` give, lowest priority first: each setting
/// comes from the last layer that provides it, or is the default.
pub open spec fn resolved(layers: Seq<ConfigLayer>) -> ConfigView
    decreases layers.len(),
{
    if layers.len() == 0 {
        default_view()
    } else {
        overlaid(resolved(layers.drop_last()), layers.last())
    }
}

impl Configuration {
    /// The default settings.
    pub fn defaults() -> (c: Configuration)
        ensures
            c@ == default_view(),
    {
        proof {
            reveal_strlit(".");
        }
        let path = ".".to_owned();
        assert(path@ == seq!['.']);
        Configuration { path, max_threads: 1, debug: true }
    }

    /// These settings with those of `layer` laid over them.
    pub fn overlay(self, layer: ConfigLayer) -> (c: Configuration)
        ensures
            c@ == overlaid(self@, layer),
    {
        Configuration {
            path: match layer.path {
                Some(p) => p,
                None => self.path,
            },
            max_threads: match layer.max_threads {
                Some(n) => n,
                None => self.max_threads,
            },
            debug: match layer.debug {
                Some(d) => d,
                None => self.debug,
            },
        }
    }
}

/// Combines the sources of settings, given lowest priority first: files in
/// the order in which they are consulted, then the environment.
pub fn config(layers: Vec<ConfigLayer>) -> (c: Configuration)
    ensures
        c@ == resolved(layers@),
{
    let mut layers = layers;
    let ghost all = layers@;
    let mut upper: Vec<ConfigLayer> = Vec::new();
    // Take the layers off the top, then lay them back on from the bottom.
    while layers.len() > 0
        invariant
            all == layers@ + upper@.reverse(),
        decreases layers@.len(),
    {
        let ghost before = layers@;
        let ghost stacked = upper@;
        match layers.pop() {
            Some(layer) => {
                upper.push(layer);
                assert(all == layers@ + upper@.reverse()) by {
                    assert(before == layers@.push(layer));
                    assert(upper@.reverse() == seq![layer] + stacked.reverse());
                    assert(layers@.push(layer) + stacked.reverse() == layers@ + (seq![layer]
                        + stacked.reverse()));
                }
            },
            None => {},
        }
    }
    assert(all == upper@.reverse());
    let mut c = Configuration::defaults();
    let ghost mut done: Seq<ConfigLayer> = Seq::empty();
    while upper.len() > 0
        invariant
            all == done + upper@.reverse(),
            c@ == resolved(done),
        decreases upper@.len(),
    {
        let ghost stacked = upper@;
        match upper.pop() {
            Some(layer) => {
                c = c.overlay(layer);
                proof {
                    assert(stacked == upper@.push(layer));
                    assert(stacked.reverse() == seq![layer] + upper@.reverse());
                    assert(done.push(layer).drop_last() == done);
                    assert(done + (seq![layer] + upper@.reverse()) == done.push(layer)
                        + upper@.reverse());
                    done = done.push(layer);
                }
            },
            None => {},
        }
    }
    assert(all == done);
    c
}

} // verus!

//! A layer stack: children laid over one another at the stack's full size.
use vstd::prelude::*;

use crate::event::{Delivery, PanelEvent};
use crate::geometry::Size;

verus! {

/// Index of the first `id` in `layers` from `k` on.
pub open spec fn index_of(layers: Seq<usize>, id: usize, k: int) -> Option<int>
    decreases layers.len() - k,
{
    if k < 0 || k >= layers.len() {
        None
    } else if layers[k] == id {
        Some(k)
    } else {
        index_of(layers, id, k + 1)
    }
}

proof fn lemma_index_of(layers: Seq<usize>, id: usize, k: int)
    requires
        0 <= k,
    ensures
        index_of(layers, id, k) matches Some(i) ==> k <= i < layers.len() && layers[i] == id
            && forall|j: int| k <= j < i ==> layers[j] != id,
        index_of(layers, id, k) is None ==> forall|j: int| k <= j < layers.len() ==> layers[j] != id,
    decreases layers.len() - k,
{
    if k < layers.len() && layers[k] != id {
        lemma_index_of(layers, id, k + 1);
    }
}

/// The children of a layer stack, by identity, oldest first: the last one is
/// on top.
pub struct LayerStack {
    pub layers: Vec<usize>,
    pub size: Size,
}

impl LayerStack {
    /// An empty stack of zero size.
    pub fn new() -> (r: LayerStack)
        ensures
            r.layers@.len() == 0,
            r.size == (Size { x: 0, y: 0, den: 1 }),
    {
        LayerStack { layers: Vec::new(), size: Size { x: 0, y: 0, den: 1 } }
    }

    pub fn layers(&self) -> (r: &Vec<usize>)
        ensures
            r@ == self.layers@,
    {
        &self.layers
    }

    /// Puts the child `id` on top.
    pub fn push_panel(&mut self, id: usize)
        ensures
            final(self).layers@ == old(self).layers@.push(id),
            final(self).size == old(self).size,
    {
        self.layers.push(id);
    }

    /// Takes the child `id` out of the stack, where it is one; says whether it
    /// was.
    pub fn remove_panel(&mut self, id: usize) -> (r: bool)
        ensures
            r == old(self).layers@.contains(id),
            final(self).size == old(self).size,
            match index_of(old(self).layers@, id, 0) {
                Some(i) => final(self).layers@ == old(self).layers@.remove(i),
                None => final(self).layers@ == old(self).layers@,
            },
    {
        proof {
            lemma_index_of(self.layers@, id, 0);
        }
        let mut i: usize = 0;
        while i < self.layers.len()
            invariant
                i <= self.layers@.len(),
                self.layers@ == old(self).layers@,
                self.size == old(self).size,
                index_of(self.layers@, id, 0) == index_of(self.layers@, id, i as int),
                forall|j: int| 0 <= j < i ==> self.layers@[j] != id,
            decreases self.layers@.len() - i,
        {
            if self.layers[i] == id {
                self.layers.remove(i);
                return true;
            }
            i = i + 1;
        }
        false
    }

    /// Every layer gets `event` unchanged.
    fn translate_event_to_all_layers(&self, event: PanelEvent) -> (r: Vec<Delivery>)
        ensures
            r@.len() == self.layers@.len(),
            forall|i: int|
                0 <= i < r@.len() ==> #[trigger] r@[i] == (Delivery {
                    child: self.layers@[i],
                    event,
                }),
    {
        let mut r: Vec<Delivery> = Vec::new();
        let mut i: usize = 0;
        while i < self.layers.len()
            invariant
                i <= self.layers@.len(),
                r@.len() == i,
                forall|k: int|
                    0 <= k < i ==> #[trigger] r@[k] == (Delivery { child: self.layers@[k], event }),
            decreases self.layers@.len() - i,
        {
            r.push(Delivery { child: self.layers[i], event });
            i = i + 1;
        }
        r
    }

    /// The top layer, if there is one, gets `event`.
    fn translate_event_to_top_layer(&self, event: PanelEvent) -> (r: Vec<Delivery>)
        ensures
            self.layers@.len() == 0 ==> r@.len() == 0,
            self.layers@.len() > 0 ==> r@ == seq![Delivery { child: self.layers@.last(), event }],
    {
        let mut r: Vec<Delivery> = Vec::new();
        let n = self.layers.len();
        if n > 0 {
            r.push(Delivery { child: self.layers[n - 1], event });
        }
        assert(n > 0 ==> r@ =~= seq![Delivery { child: self.layers@.last(), event }]);
        r
    }

    /// Routes an event to the layers: a resize sets the stack's size and goes
    /// to every layer, each layer being as large as the stack; a mouse input
    /// goes to the top layer only; any other event goes to every layer.
    pub fn on_event(&mut self, event: &PanelEvent) -> (r: Vec<Delivery>)
        ensures
            final(self).layers@ == old(self).layers@,
            match *event {
                PanelEvent::Resized(s) => final(self).size == s,
                _ => final(self).size == old(self).size,
            },
            match *event {
                PanelEvent::MouseInput { .. } => {
                    &&& old(self).layers@.len() == 0 ==> r@.len() == 0
                    &&& old(self).layers@.len() > 0 ==> r@ == seq![
                        Delivery { child: old(self).layers@.last(), event: *event },
                    ]
                },
                _ => {
                    &&& r@.len() == old(self).layers@.len()
                    &&& forall|i: int|
                        0 <= i < r@.len() ==> #[trigger] r@[i] == (Delivery {
                            child: old(self).layers@[i],
                            event: *event,
                        })
                },
            },
    {
        match *event {
            PanelEvent::Resized(s) => {
                self.size = s;
                self.translate_event_to_all_layers(*event)
            },
            PanelEvent::MouseInput { .. } => self.translate_event_to_top_layer(*event),
            _ => self.translate_event_to_all_layers(*event),
        }
    }
}

} // verus!

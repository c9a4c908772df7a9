# Optimistic consensus compiler

The compiler runs two consensus protocols side by side: Jolteon, the fast path,
and VABA, the robust one. In the *steady* state it walks along the chain that
VABA outputs, ten blocks behind its end, and demands that the fast path has
committed what it finds there. If it has not, the compiler stops Jolteon and
enters the *recovery* state, in which the nodes vote on what the fast path had
certified. Enough votes give a recovery certificate, which is submitted like a
transaction; once VABA outputs it, the era ends and Jolteon starts again.

* `src/` is the decision core, verified with Verus. It performs no I/O: an
  input goes in, a new state and a list of actions come out.
* `app/` runs the core on tokio.
* `tests/` exercises the core on concrete inputs.

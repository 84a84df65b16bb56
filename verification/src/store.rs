//! The storage shape: the two tables a repository reads and writes.
//!
//! Durable storage holds one row per department and one row per employee.
//! `Store` is that shape held as plain values, so the translation between
//! the aggregate and its rows — and the round-trip laws about it — can be
//! stated and proved here; an outer layer only has to move the rows to and
//! from the actual database file.

use vstd::prelude::*;

use crate::company::{
    covers, distinct_ids, id_filter, references, Company, CompanyEvents, Department, Employee,
};
use crate::domain::{DomainEvent, Repository};

verus! {

broadcast use vstd::seq::Seq::group_seq_extra, vstd::seq_lib::group_to_multiset_ensures;

/// The two tables: `departments (id, name)` and `employees (id, name,
/// department_id)`, each in the order its rows were inserted.
pub struct Store {
    pub departments: Vec<Department>,
    pub employees: Vec<Employee>,
}

impl Store {
    /// Empty storage: both tables without rows.
    pub fn new() -> (s: Store)
        ensures
            s.departments@ == Seq::<Department>::empty(),
            s.employees@ == Seq::<Employee>::empty(),
    {
        Store { departments: Vec::new(), employees: Vec::new() }
    }
}

/// The department rows that a sequence of events inserts, in arrival order.
pub open spec fn dept_rows(events: Seq<DomainEvent<CompanyEvents>>) -> Seq<Department>
    decreases events.len(),
{
    if events.len() == 0 {
        Seq::empty()
    } else {
        dept_rows(events.drop_last()) + (match events.last().event {
            CompanyEvents::DepartmentAdded(d) => seq![d],
            CompanyEvents::EmployeeHired(_) => Seq::empty(),
        })
    }
}

/// The employee rows that a sequence of events inserts, in arrival order.
pub open spec fn emp_rows(events: Seq<DomainEvent<CompanyEvents>>) -> Seq<Employee>
    decreases events.len(),
{
    if events.len() == 0 {
        Seq::empty()
    } else {
        emp_rows(events.drop_last()) + (match events.last().event {
            CompanyEvents::DepartmentAdded(_) => Seq::empty(),
            CompanyEvents::EmployeeHired(e) => seq![e],
        })
    }
}

/// The employees of storage as hydration orders them: grouped by department,
/// departments in table order, each group in employee-table order.
pub open spec fn grouped(depts: Seq<Department>, emps: Seq<Employee>) -> Seq<Employee>
    decreases depts.len(),
{
    if depts.len() == 0 {
        Seq::empty()
    } else {
        grouped(depts.drop_last(), emps) + id_filter(emps, depts.last().id@)
    }
}

impl Repository<CompanyEvents, Company> for Company {
    /// Hydration: one pass over the department rows and, for each, one pass
    /// over the employee rows with a matching department reference. The
    /// rebuilt aggregate starts with an empty event buffer.
    fn get(store: &Store) -> (c: Company)
        ensures
            c.departments@ == store.departments@,
            c.employees@ == grouped(store.departments@, store.employees@),
            c.events@ == Seq::<DomainEvent<CompanyEvents>>::empty(),
            c.wf(),
    {
        proof {
            lemma_grouped_covers(store.departments@, store.employees@);
        }
        let mut departments: Vec<Department> = Vec::new();
        let mut employees: Vec<Employee> = Vec::new();

        let mut i: usize = 0;
        while i < store.departments.len()
            invariant
                i <= store.departments@.len(),
                departments@ == store.departments@.take(i as int),
                employees@ == grouped(store.departments@.take(i as int), store.employees@),
            decreases store.departments@.len() - i,
        {
            let department = &store.departments[i];
            departments.push(department.clone());

            let mut j: usize = 0;
            while j < store.employees.len()
                invariant
                    i < store.departments@.len(),
                    j <= store.employees@.len(),
                    *department == store.departments@[i as int],
                    employees@ == grouped(store.departments@.take(i as int), store.employees@)
                        + id_filter(
                        store.employees@.take(j as int),
                        store.departments@[i as int].id@,
                    ),
                decreases store.employees@.len() - j,
            {
                proof {
                    assert(store.employees@.take(j + 1) =~= store.employees@.take(j as int).push(
                        store.employees@[j as int],
                    ));
                }
                if store.employees[j].department_id == department.id {
                    employees.push(store.employees[j].clone());
                }
                proof {
                    let id = store.departments@[i as int].id@;
                    let prev = store.employees@.take(j as int);
                    let e = store.employees@[j as int];
                    assert(id_filter(prev.push(e), id) == if e.department_id@ == id {
                        id_filter(prev, id).push(e)
                    } else {
                        id_filter(prev, id)
                    });
                    assert(employees@ =~= grouped(
                        store.departments@.take(i as int),
                        store.employees@,
                    ) + id_filter(store.employees@.take(j + 1), id));
                }
                j = j + 1;
            }

            proof {
                assert(store.employees@.take(store.employees@.len() as int) =~= store.employees@);
                assert(store.departments@.take(i + 1).drop_last() =~= store.departments@.take(
                    i as int,
                ));
                assert(departments@ =~= store.departments@.take(i + 1));
            }
            i = i + 1;
        }

        proof {
            assert(store.departments@.take(store.departments@.len() as int) =~= store.departments@);
        }

        Company { departments, employees, events: Vec::new() }
    }

    /// Persistence: one row inserted per uncommitted event, in arrival order.
    /// The event buffer is left as it is; clearing it is the caller's step,
    /// via `commit`, once the write is known to have succeeded.
    fn save(&self, store: &mut Store)
        ensures
            final(store).departments@ == old(store).departments@ + dept_rows(self.events@),
            final(store).employees@ == old(store).employees@ + emp_rows(self.events@),
    {
        let mut i: usize = 0;
        while i < self.events.len()
            invariant
                i <= self.events@.len(),
                store.departments@ == old(store).departments@ + dept_rows(
                    self.events@.take(i as int),
                ),
                store.employees@ == old(store).employees@ + emp_rows(self.events@.take(i as int)),
            decreases self.events@.len() - i,
        {
            proof {
                assert(self.events@.take(i + 1).drop_last() =~= self.events@.take(i as int));
            }
            match &self.events[i].event {
                CompanyEvents::DepartmentAdded(department) => {
                    store.departments.push(department.clone());
                    proof {
                        assert(store.departments@ =~= old(store).departments@ + dept_rows(
                            self.events@.take(i + 1),
                        ));
                        assert(store.employees@ =~= old(store).employees@ + emp_rows(
                            self.events@.take(i + 1),
                        ));
                    }
                },
                CompanyEvents::EmployeeHired(employee) => {
                    store.employees.push(employee.clone());
                    proof {
                        assert(store.departments@ =~= old(store).departments@ + dept_rows(
                            self.events@.take(i + 1),
                        ));
                        assert(store.employees@ =~= old(store).employees@ + emp_rows(
                            self.events@.take(i + 1),
                        ));
                    }
                },
            }
            i = i + 1;
        }
        proof {
            assert(self.events@.take(self.events@.len() as int) =~= self.events@);
        }
    }
}

/// Every employee that hydration groups references one of the stored
/// departments: a rebuilt aggregate is always well-formed.
pub proof fn lemma_grouped_covers(depts: Seq<Department>, emps: Seq<Employee>)
    ensures
        covers(depts, grouped(depts, emps)),
    decreases depts.len(),
{
    if depts.len() > 0 {
        let prefix = depts.drop_last();
        let d = depts.last();
        lemma_grouped_covers(prefix, emps);
        let g = grouped(prefix, emps);
        let f = id_filter(emps, d.id@);
        assert forall|i: int| 0 <= i < (g + f).len() implies references(
            depts,
            #[trigger] (g + f)[i],
        ) by {
            if i < g.len() {
                assert(references(prefix, g[i]));
                let j = choose|j: int|
                    0 <= j < prefix.len() && g[i].department_id@ == #[trigger] prefix[j].id@;
                assert((g + f)[i].department_id@ == depts[j].id@);
            } else {
                assert(f[i - g.len()].department_id@ == d.id@);
                assert((g + f)[i].department_id@ == depts[depts.len() - 1].id@);
            }
        }
    }
}

/// With no employee rows at all, hydration groups nothing.
pub proof fn lemma_grouped_empty(depts: Seq<Department>)
    ensures
        grouped(depts, Seq::<Employee>::empty()) == Seq::<Employee>::empty(),
    decreases depts.len(),
{
    if depts.len() > 0 {
        lemma_grouped_empty(depts.drop_last());
        assert(id_filter(Seq::<Employee>::empty(), depts.last().id@).len() == 0);
        assert(grouped(depts, Seq::<Employee>::empty()) =~= Seq::<Employee>::empty());
    }
}

/// One more employee row lands in exactly one group when it references a
/// department with a distinct identifier, and in none otherwise.
pub proof fn lemma_grouped_push(depts: Seq<Department>, emps: Seq<Employee>, e: Employee)
    requires
        distinct_ids(depts),
    ensures
        grouped(depts, emps.push(e)).to_multiset() == (if references(depts, e) {
            grouped(depts, emps).to_multiset().insert(e)
        } else {
            grouped(depts, emps).to_multiset()
        }),
    decreases depts.len(),
{
    broadcast use vstd::seq_lib::lemma_multiset_commutative;

    if depts.len() == 0 {
        assert(!references(depts, e));
    } else {
        let prefix = depts.drop_last();
        let d = depts.last();
        assert(distinct_ids(prefix)) by {
            assert(forall|j: int| 0 <= j < prefix.len() ==> prefix[j] == depts[j]);
        }
        lemma_grouped_push(prefix, emps, e);
        assert(id_filter(emps.push(e), d.id@) == if e.department_id@ == d.id@ {
            id_filter(emps, d.id@).push(e)
        } else {
            id_filter(emps, d.id@)
        });
        if e.department_id@ == d.id@ {
            assert(references(depts, e)) by {
                assert(e.department_id@ == depts[depts.len() - 1].id@);
            }
            assert(!references(prefix, e)) by {
                if references(prefix, e) {
                    let j = choose|j: int|
                        0 <= j < prefix.len() && e.department_id@ == #[trigger] prefix[j].id@;
                    assert(depts[j].id@ == depts[depts.len() - 1].id@);
                }
            }
            assert(grouped(depts, emps.push(e)).to_multiset() =~= grouped(
                depts,
                emps,
            ).to_multiset().insert(e));
        } else {
            assert(references(depts, e) <==> references(prefix, e)) by {
                if references(depts, e) {
                    let j = choose|j: int|
                        0 <= j < depts.len() && e.department_id@ == #[trigger] depts[j].id@;
                    assert(j < depts.len() - 1);
                    assert(e.department_id@ == prefix[j].id@);
                }
                if references(prefix, e) {
                    let j = choose|j: int|
                        0 <= j < prefix.len() && e.department_id@ == #[trigger] prefix[j].id@;
                    assert(e.department_id@ == depts[j].id@);
                }
            }
            if references(depts, e) {
                assert(grouped(depts, emps.push(e)).to_multiset() =~= grouped(
                    depts,
                    emps,
                ).to_multiset().insert(e));
            } else {
                assert(grouped(depts, emps.push(e)).to_multiset() =~= grouped(
                    depts,
                    emps,
                ).to_multiset());
            }
        }
    }
}

/// Hydration returns exactly the stored employee rows, reordered into their
/// department groups: the grouped rows form the same multiset as the
/// employee table, provided every row references a stored department and
/// department identifiers are pairwise distinct.
pub proof fn lemma_grouped_permutes(depts: Seq<Department>, emps: Seq<Employee>)
    requires
        distinct_ids(depts),
        covers(depts, emps),
    ensures
        grouped(depts, emps).to_multiset() == emps.to_multiset(),
    decreases emps.len(),
{
    if emps.len() == 0 {
        assert(emps =~= Seq::<Employee>::empty());
        lemma_grouped_empty(depts);
    } else {
        let prefix = emps.drop_last();
        let e = emps.last();
        assert(emps =~= prefix.push(e));
        assert(covers(depts, prefix)) by {
            assert(forall|i: int| 0 <= i < prefix.len() ==> prefix[i] == emps[i]);
        }
        lemma_grouped_permutes(depts, prefix);
        lemma_grouped_push(depts, prefix, e);
        assert(references(depts, e)) by {
            assert(references(depts, emps[emps.len() - 1]));
        }
        assert(grouped(depts, emps).to_multiset() == grouped(depts, prefix.push(e)).to_multiset());
        assert(prefix.push(e).to_multiset() == prefix.to_multiset().insert(e));
    }
}

/// Round-trip law: flushing the buffered events appends their rows to
/// storage, and a fresh hydration from that storage rebuilds exactly the
/// stored departments, in order, and exactly the stored employees up to the
/// grouping order — nothing is lost and nothing is invented.
pub proof fn lemma_save_then_load_round_trip(
    c: Company,
    before: Store,
    after: Store,
    reloaded: Company,
)
    requires
        after.departments@ == before.departments@ + dept_rows(c.events@),
        after.employees@ == before.employees@ + emp_rows(c.events@),
        reloaded.departments@ == after.departments@,
        reloaded.employees@ == grouped(after.departments@, after.employees@),
        distinct_ids(after.departments@),
        covers(after.departments@, after.employees@),
    ensures
        reloaded.departments@ == before.departments@ + dept_rows(c.events@),
        reloaded.employees@.to_multiset() == (before.employees@ + emp_rows(
            c.events@,
        )).to_multiset(),
{
    lemma_grouped_permutes(after.departments@, after.employees@);
}

/// An aggregate whose buffer was committed flushes nothing: saving it again
/// inserts no row at all.
pub proof fn lemma_committed_save_writes_nothing(c: Company)
    requires
        c.events@.len() == 0,
    ensures
        dept_rows(c.events@) == Seq::<Department>::empty(),
        emp_rows(c.events@) == Seq::<Employee>::empty(),
{
}

/// Saving twice without an intervening commit sends every buffered event's
/// row twice.
pub proof fn lemma_uncommitted_save_resends(c: Company, s0: Store, s1: Store, s2: Store)
    requires
        s1.departments@ == s0.departments@ + dept_rows(c.events@),
        s1.employees@ == s0.employees@ + emp_rows(c.events@),
        s2.departments@ == s1.departments@ + dept_rows(c.events@),
        s2.employees@ == s1.employees@ + emp_rows(c.events@),
    ensures
        s2.departments@ == s0.departments@ + dept_rows(c.events@) + dept_rows(c.events@),
        s2.employees@ == s0.employees@ + emp_rows(c.events@) + emp_rows(c.events@),
{
}

} // verus!

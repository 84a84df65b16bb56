//! The company aggregate: departments, employees, and buffered domain events.
//!
//! The aggregate enforces the business rules before any state becomes
//! visible — a department name must be unique once normalized, an employee
//! can only be hired into an existing department — and records exactly the
//! facts that must later be written to storage. Storage itself is never
//! touched here.

use vstd::prelude::*;

use crate::domain::{AggregateRoot, DomainEvent};
use crate::ident::fresh_id;
use crate::text::{lowercased, normalized, trim_of, trimmed};

verus! {

broadcast use vstd::seq::Seq::group_seq_extra;

/// A department of the company. The `id` is an opaque unique token; the
/// `name` is stored normalized (trimmed and lower-cased).
pub struct Department {
    pub id: String,
    pub name: String,
}

/// An employee. The `name` is stored trimmed with its case preserved;
/// `department_id` references the owning department's `id`.
pub struct Employee {
    pub id: String,
    pub name: String,
    pub department_id: String,
}

/// The facts an aggregate mutation can record.
pub enum CompanyEvents {
    DepartmentAdded(Department),
    EmployeeHired(Employee),
}

/// A business-rule violation reported by an aggregate mutation. Such a
/// failure is local: it leaves the aggregate exactly as it was.
#[derive(PartialEq, Eq, Structural, Clone, Copy, Debug)]
pub enum CompanyError {
    /// A department with the same normalized name already exists.
    DuplicateDepartment,
    /// No department with the given normalized name exists.
    DepartmentNotFound,
}

impl CompanyError {
    /// A short description of the failure, for presentation.
    pub fn message(&self) -> (r: &'static str)
        ensures
            *self is DuplicateDepartment ==> r@ == "the department is already part of the company"@,
            *self is DepartmentNotFound ==> r@ == "the department was not found"@,
    {
        match self {
            CompanyError::DuplicateDepartment => "the department is already part of the company",
            CompanyError::DepartmentNotFound => "the department was not found",
        }
    }
}

/// The aggregate root: the in-memory collections, in creation order, and the
/// buffer of events not yet flushed to storage.
pub struct Company {
    pub departments: Vec<Department>,
    pub employees: Vec<Employee>,
    pub events: Vec<DomainEvent<CompanyEvents>>,
}

impl Clone for Department {
    fn clone(&self) -> (r: Self)
        ensures
            r == *self,
    {
        Department { id: self.id.clone(), name: self.name.clone() }
    }
}

impl Clone for Employee {
    fn clone(&self) -> (r: Self)
        ensures
            r == *self,
    {
        Employee {
            id: self.id.clone(),
            name: self.name.clone(),
            department_id: self.department_id.clone(),
        }
    }
}

/// The employee rows whose department reference equals `id`, in order.
pub open spec fn id_filter(emps: Seq<Employee>, id: Seq<char>) -> Seq<Employee> {
    emps.filter(|e: Employee| e.department_id@ == id)
}

/// Whether `e` references one of the departments of `depts`.
pub open spec fn references(depts: Seq<Department>, e: Employee) -> bool {
    exists|j: int| 0 <= j < depts.len() && e.department_id@ == #[trigger] depts[j].id@
}

/// Whether every employee of `emps` references one of the departments.
pub open spec fn covers(depts: Seq<Department>, emps: Seq<Employee>) -> bool {
    forall|i: int| 0 <= i < emps.len() ==> references(depts, #[trigger] emps[i])
}

/// Whether the departments carry pairwise distinct identifier tokens.
pub open spec fn distinct_ids(depts: Seq<Department>) -> bool {
    forall|j: int, k: int|
        0 <= j < k < depts.len() ==> (#[trigger] depts[j].id@) != (#[trigger] depts[k].id@)
}

/// Whether index `j` holds the first department of `depts` named `name`.
pub open spec fn is_first_match(depts: Seq<Department>, name: Seq<char>, j: int) -> bool {
    &&& 0 <= j < depts.len()
    &&& depts[j].name@ == name
    &&& forall|k: int| 0 <= k < j ==> (#[trigger] depts[k].name@) != name
}

impl Company {
    /// Whether some department carries exactly this (already normalized) name.
    pub open spec fn has_department(self, name: Seq<char>) -> bool {
        exists|i: int| 0 <= i < self.departments@.len() && (#[trigger] self.departments@[i].name@)
            == name
    }

    /// Well-formedness: every employee references an existing department.
    pub open spec fn wf(self) -> bool {
        covers(self.departments@, self.employees@)
    }

    /// Whether the departments carry pairwise distinct identifier tokens.
    pub open spec fn distinct_department_ids(self) -> bool {
        distinct_ids(self.departments@)
    }

    /// Normalizes the name and, unless a department already carries it,
    /// appends a new department and records a `DepartmentAdded` event.
    pub fn add_department(&mut self, department_name: String) -> (r: Result<(), CompanyError>)
        ensures
            r is Ok <==> !old(self).has_department(normalized(department_name@)),
            r is Err ==> r == Err::<(), CompanyError>(CompanyError::DuplicateDepartment) && *final(self)
                == *old(self),
            r is Ok ==> {
                &&& final(self).departments@ == old(self).departments@.push(
                    final(self).departments@.last(),
                )
                &&& final(self).departments@.last().name@ == normalized(department_name@)
                &&& final(self).employees@ == old(self).employees@
                &&& final(self).events@ == old(self).events@.push(
                    (DomainEvent {
                        event: CompanyEvents::DepartmentAdded(final(self).departments@.last()),
                    }),
                )
            },
            old(self).wf() ==> final(self).wf(),
    {
        let trimmed_name = trimmed(department_name.as_str());
        let name = lowercased(trimmed_name.as_str());

        if self.find_department(&name).is_some() {
            return Err(CompanyError::DuplicateDepartment);
        }

        let department = Department { id: fresh_id(), name };
        self.departments.push(department.clone());
        self.apply(CompanyEvents::DepartmentAdded(department));

        proof {
            if old(self).wf() {
                assert forall|i: int| 0 <= i < self.employees@.len() implies references(
                    self.departments@,
                    #[trigger] self.employees@[i],
                ) by {
                    assert(references(old(self).departments@, self.employees@[i]));
                    let j = choose|j: int|
                        0 <= j < old(self).departments@.len() && self.employees@[i].department_id@
                            == old(self).departments@[j].id@;
                    assert(self.departments@[j].id@ == old(self).departments@[j].id@);
                }
            }
        }

        Ok(())
    }

    /// Looks the department up by its normalized name; if it exists, appends
    /// a new employee referencing it and records an `EmployeeHired` event,
    /// otherwise fails and leaves the aggregate unchanged.
    pub fn hire_employee(&mut self, employee_name: String, department_name: String) -> (r: Result<
        (),
        CompanyError,
    >)
        ensures
            r is Ok <==> old(self).has_department(normalized(department_name@)),
            r is Err ==> r == Err::<(), CompanyError>(CompanyError::DepartmentNotFound) && *final(self)
                == *old(self),
            r is Ok ==> {
                &&& final(self).departments@ == old(self).departments@
                &&& final(self).employees@ == old(self).employees@.push(
                    final(self).employees@.last(),
                )
                &&& final(self).employees@.last().name@ == trim_of(employee_name@)
                &&& exists|j: int|
                    is_first_match(old(self).departments@, normalized(department_name@), j)
                        && final(self).employees@.last().department_id@ == old(self).departments@[j].id@
                &&& final(self).events@ == old(self).events@.push(
                    (DomainEvent {
                        event: CompanyEvents::EmployeeHired(final(self).employees@.last()),
                    }),
                )
            },
            old(self).wf() ==> final(self).wf(),
    {
        let trimmed_name = trimmed(department_name.as_str());
        let name = lowercased(trimmed_name.as_str());

        let department_id = match self.find_department(&name) {
            Some(department) => department.id.clone(),
            None => {
                return Err(CompanyError::DepartmentNotFound);
            },
        };

        let employee = Employee {
            id: fresh_id(),
            name: trimmed(employee_name.as_str()),
            department_id,
        };
        self.employees.push(employee.clone());
        self.apply(CompanyEvents::EmployeeHired(employee));

        Ok(())
    }

    /// The count of all employees.
    pub fn get_total_employees(&self) -> (r: u32)
        requires
            self.employees@.len() <= u32::MAX,
        ensures
            r == self.employees@.len(),
    {
        self.employees.len() as u32
    }

    /// The count of employees whose department reference equals
    /// `department_id`.
    pub fn get_employees_by_department(&self, department_id: &String) -> (r: u32)
        requires
            self.employees@.len() <= u32::MAX,
        ensures
            r == id_filter(self.employees@, department_id@).len(),
    {
        let mut count: u32 = 0;
        let mut i: usize = 0;
        while i < self.employees.len()
            invariant
                i <= self.employees@.len(),
                self.employees@.len() <= u32::MAX,
                count == id_filter(self.employees@.take(i as int), department_id@).len(),
            decreases self.employees@.len() - i,
        {
            proof {
                assert(self.employees@.take(i + 1).drop_last() =~= self.employees@.take(i as int));
                assert(self.employees@.take(i + 1) =~= self.employees@.take(i as int).push(
                    self.employees@[i as int],
                ));
            }
            if self.employees[i].department_id == *department_id {
                count = count + 1;
            }
            i = i + 1;
            proof {
                assert(id_filter(self.employees@.take(i as int), department_id@).len()
                    <= self.employees@.take(i as int).len());
            }
        }
        proof {
            assert(self.employees@.take(self.employees@.len() as int) =~= self.employees@);
        }
        count
    }

    /// The employees whose department reference equals `department_id`, in
    /// order.
    pub fn employees_of(&self, department_id: &String) -> (r: Vec<Employee>)
        ensures
            r@ == id_filter(self.employees@, department_id@),
    {
        let mut found: Vec<Employee> = Vec::new();
        let mut i: usize = 0;
        while i < self.employees.len()
            invariant
                i <= self.employees@.len(),
                found@ == id_filter(self.employees@.take(i as int), department_id@),
            decreases self.employees@.len() - i,
        {
            proof {
                assert(self.employees@.take(i + 1) =~= self.employees@.take(i as int).push(
                    self.employees@[i as int],
                ));
            }
            if self.employees[i].department_id == *department_id {
                found.push(self.employees[i].clone());
            }
            i = i + 1;
        }
        proof {
            assert(self.employees@.take(self.employees@.len() as int) =~= self.employees@);
        }
        found
    }

    /// The first department carrying exactly this (already normalized) name,
    /// if any.
    pub fn find_department(&self, department_name: &String) -> (r: Option<&Department>)
        ensures
            r is Some <==> self.has_department(department_name@),
            r matches Some(d) ==> exists|j: int|
                #[trigger] is_first_match(self.departments@, department_name@, j) && *d
                    == self.departments@[j],
    {
        let mut i: usize = 0;
        while i < self.departments.len()
            invariant
                i <= self.departments@.len(),
                forall|k: int| 0 <= k < i ==> (#[trigger] self.departments@[k].name@)
                    != department_name@,
            decreases self.departments@.len() - i,
        {
            if self.departments[i].name == *department_name {
                proof {
                    assert(is_first_match(self.departments@, department_name@, i as int));
                }
                return Some(&self.departments[i]);
            }
            i = i + 1;
        }
        None
    }
}

impl Default for Company {
    /// An empty aggregate: no departments, no employees, no buffered events.
    fn default() -> (c: Company)
        ensures
            c.departments@ == Seq::<Department>::empty(),
            c.employees@ == Seq::<Employee>::empty(),
            c.events@ == Seq::<DomainEvent<CompanyEvents>>::empty(),
    {
        Company { departments: Vec::new(), employees: Vec::new(), events: Vec::new() }
    }
}

impl AggregateRoot<CompanyEvents> for Company {
    fn apply(&mut self, event: CompanyEvents)
        ensures
            final(self).departments@ == old(self).departments@,
            final(self).employees@ == old(self).employees@,
            final(self).events@ == old(self).events@.push(DomainEvent { event }),
    {
        self.events.push(DomainEvent { event })
    }

    fn commit(&mut self)
        ensures
            final(self).departments@ == old(self).departments@,
            final(self).employees@ == old(self).employees@,
            final(self).events@ == Seq::<DomainEvent<CompanyEvents>>::empty(),
    {
        self.events = Vec::new()
    }

    fn get_uncommited_events(&self) -> (r: &Vec<DomainEvent<CompanyEvents>>)
        ensures
            r@ == self.events@,
    {
        &self.events
    }
}

/// The sum, over the departments, of the count of employees referencing each
/// department.
pub open spec fn sum_counts(depts: Seq<Department>, emps: Seq<Employee>) -> nat
    decreases depts.len(),
{
    if depts.len() == 0 {
        0
    } else {
        sum_counts(depts.drop_last(), emps) + id_filter(emps, depts.last().id@).len()
    }
}

/// One more employee raises the per-department sum by one when it references
/// a department, and by nothing otherwise — departments with distinct
/// identifiers count no employee twice.
pub proof fn lemma_sum_counts_push(depts: Seq<Department>, emps: Seq<Employee>, e: Employee)
    requires
        distinct_ids(depts),
    ensures
        sum_counts(depts, emps.push(e)) == sum_counts(depts, emps) + (if references(depts, e) {
            1nat
        } else {
            0nat
        }),
    decreases depts.len(),
{
    if depts.len() == 0 {
        assert(!references(depts, e));
    } else {
        let prefix = depts.drop_last();
        let d = depts.last();
        assert(distinct_ids(prefix)) by {
            assert(forall|j: int| 0 <= j < prefix.len() ==> prefix[j] == depts[j]);
        }
        lemma_sum_counts_push(prefix, emps, e);
        assert(id_filter(emps.push(e), d.id@) == if e.department_id@ == d.id@ {
            id_filter(emps, d.id@).push(e)
        } else {
            id_filter(emps, d.id@)
        });
        if e.department_id@ == d.id@ {
            assert(references(depts, e)) by {
                assert(e.department_id@ == depts[depts.len() - 1].id@);
            }
            assert(!references(prefix, e)) by {
                if references(prefix, e) {
                    let j = choose|j: int|
                        0 <= j < prefix.len() && e.department_id@ == #[trigger] prefix[j].id@;
                    assert(depts[j].id@ == depts[depts.len() - 1].id@);
                }
            }
        } else {
            assert(references(depts, e) <==> references(prefix, e)) by {
                if references(depts, e) {
                    let j = choose|j: int|
                        0 <= j < depts.len() && e.department_id@ == #[trigger] depts[j].id@;
                    assert(j < depts.len() - 1);
                    assert(e.department_id@ == prefix[j].id@);
                }
                if references(prefix, e) {
                    let j = choose|j: int|
                        0 <= j < prefix.len() && e.department_id@ == #[trigger] prefix[j].id@;
                    assert(e.department_id@ == depts[j].id@);
                }
            }
        }
    }
}

/// The total count of employees equals the per-department sum, provided
/// every employee references a department and department identifiers are
/// pairwise distinct.
pub proof fn lemma_len_is_sum_counts(depts: Seq<Department>, emps: Seq<Employee>)
    requires
        distinct_ids(depts),
        covers(depts, emps),
    ensures
        emps.len() == sum_counts(depts, emps),
    decreases emps.len(),
{
    if emps.len() == 0 {
        assert(emps =~= Seq::<Employee>::empty());
        lemma_sum_counts_empty(depts);
    } else {
        let prefix = emps.drop_last();
        let e = emps.last();
        assert(emps =~= prefix.push(e));
        assert(covers(depts, prefix)) by {
            assert(forall|i: int| 0 <= i < prefix.len() ==> prefix[i] == emps[i]);
        }
        lemma_len_is_sum_counts(depts, prefix);
        lemma_sum_counts_push(depts, prefix, e);
        assert(references(depts, e)) by {
            assert(references(depts, emps[emps.len() - 1]));
        }
    }
}

/// With no employees at all, the per-department sum is zero.
pub proof fn lemma_sum_counts_empty(depts: Seq<Department>)
    ensures
        sum_counts(depts, Seq::<Employee>::empty()) == 0,
    decreases depts.len(),
{
    if depts.len() > 0 {
        lemma_sum_counts_empty(depts.drop_last());
        assert(id_filter(Seq::<Employee>::empty(), depts.last().id@).len() == 0);
    }
}

/// Law: after any run of successful mutations, the total employee count
/// equals the sum over the departments of the count of employees referencing
/// each of them — every employee references an existing department (the
/// aggregate enforces it), and no employee is counted twice as long as the
/// generated department identifiers are pairwise distinct.
pub proof fn lemma_total_is_sum_of_departments(c: Company)
    requires
        c.wf(),
        c.distinct_department_ids(),
    ensures
        c.employees@.len() == sum_counts(c.departments@, c.employees@),
{
    lemma_len_is_sum_counts(c.departments@, c.employees@);
}

} // verus!

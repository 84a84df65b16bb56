use company_track::company::{Company, CompanyEvents};
use company_track::domain::{AggregateRoot, Repository};
use company_track::store::Store;

fn sample_company() -> Company {
    let mut company = Company::default();
    assert!(company.add_department("Engineering".to_string()).is_ok());
    assert!(company.add_department("Sales".to_string()).is_ok());
    assert!(company.hire_employee("Alice".to_string(), "Engineering".to_string()).is_ok());
    assert!(company.hire_employee("Bob".to_string(), "Sales".to_string()).is_ok());
    assert!(company.hire_employee("Carol".to_string(), "Engineering".to_string()).is_ok());
    company
}

#[test]
fn save_writes_one_row_per_event_in_order() {
    let company = sample_company();
    let mut store = Store::new();
    company.save(&mut store);

    assert_eq!(store.departments.len(), 2);
    assert_eq!(store.departments[0].name, "engineering");
    assert_eq!(store.departments[1].name, "sales");
    assert_eq!(store.employees.len(), 3);
    assert_eq!(store.employees[0].name, "Alice");
    assert_eq!(store.employees[1].name, "Bob");
    assert_eq!(store.employees[2].name, "Carol");
}

#[test]
fn save_then_load_round_trips_field_for_field() {
    let mut company = sample_company();
    let mut store = Store::new();
    company.save(&mut store);
    company.commit();

    let reloaded = Company::get(&store);

    assert_eq!(reloaded.get_uncommited_events().len(), 0);
    assert_eq!(reloaded.departments.len(), company.departments.len());
    for (reloaded_department, department) in
        reloaded.departments.iter().zip(company.departments.iter())
    {
        assert_eq!(reloaded_department.id, department.id);
        assert_eq!(reloaded_department.name, department.name);
    }

    // Hydration groups employees by department; compare the rows per group.
    assert_eq!(reloaded.employees.len(), company.employees.len());
    for department in company.departments.iter() {
        let expected = company.employees_of(&department.id);
        let rebuilt = reloaded.employees_of(&department.id);
        assert_eq!(expected.len(), rebuilt.len());
        for (a, b) in expected.iter().zip(rebuilt.iter()) {
            assert_eq!(a.id, b.id);
            assert_eq!(a.name, b.name);
            assert_eq!(a.department_id, b.department_id);
        }
    }
}

#[test]
fn save_twice_without_commit_resends_every_event() {
    let company = sample_company();
    let mut store = Store::new();
    company.save(&mut store);
    company.save(&mut store);
    assert_eq!(store.departments.len(), 4);
    assert_eq!(store.employees.len(), 6);
}

#[test]
fn save_after_commit_writes_nothing() {
    let mut company = sample_company();
    let mut store = Store::new();
    company.save(&mut store);
    company.commit();
    company.save(&mut store);
    assert_eq!(store.departments.len(), 2);
    assert_eq!(store.employees.len(), 3);
}

#[test]
fn loading_from_empty_storage_yields_an_empty_aggregate() {
    let store = Store::new();
    let company = Company::get(&store);
    assert_eq!(company.departments.len(), 0);
    assert_eq!(company.employees.len(), 0);
    assert_eq!(company.get_uncommited_events().len(), 0);
}

#[test]
fn events_carry_the_created_entities() {
    let company = sample_company();
    let events = company.get_uncommited_events();
    assert_eq!(events.len(), 5);
    match &events[0].event {
        CompanyEvents::DepartmentAdded(department) => {
            assert_eq!(department.name, "engineering");
            assert_eq!(department.id, company.departments[0].id);
        }
        CompanyEvents::EmployeeHired(_) => panic!("first event must be a department"),
    }
    match &events[2].event {
        CompanyEvents::EmployeeHired(employee) => {
            assert_eq!(employee.name, "Alice");
            assert_eq!(employee.department_id, company.departments[0].id);
        }
        CompanyEvents::DepartmentAdded(_) => panic!("third event must be a hire"),
    }
}

/// The same round trip through an actual database file, the way an
/// application would wire the repository to its storage.
#[test]
fn save_then_load_round_trips_through_sqlite() {
    let connection = rusqlite::Connection::open_in_memory().unwrap();
    connection
        .execute(
            "CREATE TABLE departments (id TEXT PRIMARY KEY, name TEXT NOT NULL UNIQUE)",
            [],
        )
        .unwrap();
    connection
        .execute(
            "CREATE TABLE employees (
                id TEXT PRIMARY KEY,
                name TEXT NOT NULL UNIQUE,
                department_id TEXT NOT NULL REFERENCES departments(id)
            )",
            [],
        )
        .unwrap();

    let mut company = sample_company();

    // Flush the buffered events into a row batch, then send the rows.
    let mut batch = Store::new();
    company.save(&mut batch);
    for department in batch.departments.iter() {
        connection
            .execute(
                "INSERT INTO departments (id, name) VALUES (?1, ?2)",
                (&department.id, &department.name),
            )
            .unwrap();
    }
    for employee in batch.employees.iter() {
        connection
            .execute(
                "INSERT INTO employees (id, name, department_id) VALUES (?1, ?2, ?3)",
                (&employee.id, &employee.name, &employee.department_id),
            )
            .unwrap();
    }
    company.commit();

    // Read both tables back and hydrate a fresh aggregate from them.
    let mut store = Store::new();
    let mut statement = connection.prepare("SELECT id, name FROM departments").unwrap();
    let departments = statement
        .query_map([], |row| {
            Ok((row.get::<_, String>(0).unwrap(), row.get::<_, String>(1).unwrap()))
        })
        .unwrap();
    for row in departments {
        let (id, name) = row.unwrap();
        store.departments.push(company_track::company::Department { id, name });
    }
    let mut statement = connection
        .prepare("SELECT id, name, department_id FROM employees")
        .unwrap();
    let employees = statement
        .query_map([], |row| {
            Ok((
                row.get::<_, String>(0).unwrap(),
                row.get::<_, String>(1).unwrap(),
                row.get::<_, String>(2).unwrap(),
            ))
        })
        .unwrap();
    for row in employees {
        let (id, name, department_id) = row.unwrap();
        store.employees.push(company_track::company::Employee { id, name, department_id });
    }

    let reloaded = Company::get(&store);
    assert_eq!(reloaded.departments.len(), 2);
    assert_eq!(reloaded.employees.len(), 3);
    for department in company.departments.iter() {
        let expected = company.employees_of(&department.id);
        let rebuilt = reloaded.employees_of(&department.id);
        assert_eq!(expected.len(), rebuilt.len());
        for (a, b) in expected.iter().zip(rebuilt.iter()) {
            assert_eq!(a.name, b.name);
        }
    }
}
